//! A set of tags: short texts, each held once, in the order in which they
//! were added.

use crate::text::debug_string;
use crate::text::debug_text;
use crate::text::join;
use crate::text::joined;
use crate::text::str_eq;
use vstd::prelude::*;
use vstd::string::*;

verus! {

/// `tags` with `tag` added at the end, unless it is there already.
pub open spec fn insert_tag(tags: Seq<Seq<char>>, tag: Seq<char>) -> Seq<Seq<char>> {
    if tags.contains(tag) {
        tags
    } else {
        tags.push(tag)
    }
}

/// `tags` with each of `more` added in turn.
pub open spec fn insert_tags(tags: Seq<Seq<char>>, more: Seq<Seq<char>>) -> Seq<Seq<char>>
    decreases more.len(),
{
    if more.len() == 0 {
        tags
    } else {
        insert_tags(insert_tag(tags, more[0]), more.drop_first())
    }
}

/// `tags` without `tag`.
pub open spec fn remove_tag(tags: Seq<Seq<char>>, tag: Seq<char>) -> Seq<Seq<char>> {
    if tags.contains(tag) {
        tags.remove(tags.index_of(tag))
    } else {
        tags
    }
}

/// `tags` with each of `less` taken out in turn.
pub open spec fn remove_tags(tags: Seq<Seq<char>>, less: Seq<Seq<char>>) -> Seq<Seq<char>>
    decreases less.len(),
{
    if less.len() == 0 {
        tags
    } else {
        remove_tags(remove_tag(tags, less[0]), less.drop_first())
    }
}

/// Whether every tag of `wanted` is among `tags`.
pub open spec fn has_all_tags(tags: Seq<Seq<char>>, wanted: Seq<Seq<char>>) -> bool {
    forall|i: int| 0 <= i < wanted.len() ==> tags.contains(#[trigger] wanted[i])
}

/// Adding a tag keeps the tags distinct.
pub proof fn lemma_insert_tag_distinct(tags: Seq<Seq<char>>, tag: Seq<char>)
    requires
        tags.no_duplicates(),
    ensures
        insert_tag(tags, tag).no_duplicates(),
        insert_tag(tags, tag).contains(tag),
        forall|t: Seq<char>| tags.contains(t) ==> insert_tag(tags, tag).contains(t),
{
    if !tags.contains(tag) {
        let after = tags.push(tag);
        assert(after[tags.len() as int] == tag);
        assert forall|t: Seq<char>| tags.contains(t) implies after.contains(t) by {
            let i = tags.index_of(t);
            assert(after[i] == t);
        }
    }
}

/// Tags of which none is held yet, and none occurs twice, are added as
/// they come.
pub proof fn lemma_insert_tags_fresh(tags: Seq<Seq<char>>, more: Seq<Seq<char>>)
    requires
        (tags + more).no_duplicates(),
    ensures
        insert_tags(tags, more) == tags + more,
    decreases more.len(),
{
    if more.len() == 0 {
        assert(tags + more =~= tags);
    } else {
        let all = tags + more;
        if tags.contains(more[0]) {
            let i = tags.index_of(more[0]);
            assert(all[i] == more[0]);
            assert(all[tags.len() as int] == more[0]);
            assert(false);
        }
        let next = tags.push(more[0]);
        assert(next + more.drop_first() =~= all);
        lemma_insert_tags_fresh(next, more.drop_first());
    }
}

/// Taking a tag out keeps the tags distinct, and the tag is gone.
pub proof fn lemma_remove_tag_distinct(tags: Seq<Seq<char>>, tag: Seq<char>)
    requires
        tags.no_duplicates(),
    ensures
        remove_tag(tags, tag).no_duplicates(),
        !remove_tag(tags, tag).contains(tag),
        forall|t: Seq<char>| t != tag ==> (remove_tag(tags, tag).contains(t) <==> tags.contains(t)),
{
    if tags.contains(tag) {
        let i = tags.index_of(tag);
        let after = tags.remove(i);
        assert forall|a: int, b: int| 0 <= a < after.len() && 0 <= b < after.len() && a != b implies after[a] != after[b] by {
            let x = if a < i { a } else { a + 1 };
            let y = if b < i { b } else { b + 1 };
            assert(after[a] == tags[x]);
            assert(after[b] == tags[y]);
        }
        if after.contains(tag) {
            let a = after.index_of(tag);
            let x = if a < i { a } else { a + 1 };
            assert(after[a] == tags[x]);
            assert(false);
        }
        assert forall|t: Seq<char>| t != tag implies (after.contains(t) <==> tags.contains(t)) by {
            if after.contains(t) {
                let a = after.index_of(t);
                let x = if a < i { a } else { a + 1 };
                assert(after[a] == tags[x]);
            }
            if tags.contains(t) {
                let x = tags.index_of(t);
                let a = if x < i { x } else { x - 1 };
                assert(after[a] == tags[x]);
            }
        }
    }
}

/// A set of tags as the debug format writes one: each tag in its debug
/// format, a comma and a space between each two, in braces.
pub open spec fn debug_set(tags: Seq<Seq<char>>) -> Seq<char> {
    seq!['{'] + joined(Seq::new(tags.len(), |i: int| debug_text(tags[i])), seq![',', ' ']) + seq![
        '}',
    ]
}

/// A set of tags. Its view lists the tags in the order in which they were
/// added; none occurs twice.
#[derive(Debug)]
pub struct TagSet {
    items: Vec<String>,
}

impl View for TagSet {
    type V = Seq<Seq<char>>;

    closed spec fn view(&self) -> Seq<Seq<char>> {
        self.items.deep_view()
    }
}

impl Clone for TagSet {
    fn clone(&self) -> (r: TagSet)
        ensures
            r@ == self@,
    {
        proof {
            use_type_invariant(self);
        }
        let mut items: Vec<String> = Vec::new();
        let mut i: usize = 0;
        while i < self.items.len()
            invariant
                i <= self.items.len(),
                items.deep_view() == self.items.deep_view().take(i as int),
            decreases self.items.len() - i,
        {
            let ghost before = items.deep_view();
            items.push(self.items[i].clone());
            assert(items.deep_view() =~= before.push(self.items[i as int]@));
            assert(self.items.deep_view().take(i + 1) =~= before.push(self.items[i as int]@));
            i += 1;
        }
        assert(self.items.deep_view().take(self.items.len() as int) =~= self.items.deep_view());
        TagSet { items }
    }
}

impl TagSet {
    #[verifier::type_invariant]
    spec fn distinct(&self) -> bool {
        self.items.deep_view().no_duplicates()
    }

    /// Moves the tags out and leaves the set empty.
    fn take_items(&mut self) -> (items: Vec<String>)
        ensures
            items.deep_view() == old(self)@,
            final(self)@ == Seq::<Seq<char>>::empty(),
    {
        let mut items: Vec<String> = Vec::new();
        assert(items.deep_view() =~= Seq::empty());
        core::mem::swap(&mut self.items, &mut items);
        items
    }

    /// The empty set.
    pub fn new() -> (r: TagSet)
        ensures
            r@ == Seq::<Seq<char>>::empty(),
    {
        let items: Vec<String> = Vec::new();
        assert(items.deep_view() =~= Seq::empty());
        TagSet { items }
    }

    /// The tags of `tags`, each once, in the order of their first
    /// occurrence.
    pub fn from_vec(tags: Vec<String>) -> (r: TagSet)
        ensures
            r@ == insert_tags(Seq::empty(), tags.deep_view()),
            r@.no_duplicates(),
    {
        let mut set = TagSet::new();
        set.insert_all(&tags);
        set
    }

    /// How many tags there are.
    pub fn len(&self) -> (r: usize)
        ensures
            r == self@.len(),
    {
        self.items.len()
    }

    /// Whether `tag` is in the set.
    pub fn contains(&self, tag: &str) -> (r: bool)
        ensures
            r == self@.contains(tag@),
    {
        let mut i: usize = 0;
        while i < self.items.len()
            invariant
                i <= self.items.len(),
                forall|j: int| 0 <= j < i ==> #[trigger] self@[j] != tag@,
            decreases self.items.len() - i,
        {
            if str_eq(self.items[i].as_str(), tag) {
                assert(self@[i as int] == tag@);
                return true;
            }
            i += 1;
        }
        false
    }

    /// Whether every tag of `tags` is in the set. Every tag of the empty
    /// list is.
    pub fn contains_all(&self, tags: &[String]) -> (r: bool)
        ensures
            r == has_all_tags(self@, tags.deep_view()),
    {
        let mut i: usize = 0;
        while i < tags.len()
            invariant
                i <= tags.len(),
                forall|j: int| 0 <= j < i ==> self@.contains(#[trigger] tags.deep_view()[j]),
            decreases tags.len() - i,
        {
            if !self.contains(tags[i].as_str()) {
                assert(!self@.contains(tags.deep_view()[i as int]));
                return false;
            }
            i += 1;
        }
        true
    }

    /// Adds a tag, unless it is in the set already.
    pub fn insert(&mut self, tag: &str)
        ensures
            final(self)@ == insert_tag(old(self)@, tag@),
            final(self)@.no_duplicates(),
    {
        proof {
            use_type_invariant(&*self);
            lemma_insert_tag_distinct(self@, tag@);
        }
        if !self.contains(tag) {
            let mut items = self.take_items();
            let ghost before = items.deep_view();
            items.push(tag.to_owned());
            assert(items.deep_view() =~= before.push(tag@));
            self.items = items;
        }
    }

    /// Adds each of `tags` in turn.
    pub fn insert_all(&mut self, tags: &Vec<String>)
        ensures
            final(self)@ == insert_tags(old(self)@, tags.deep_view()),
            final(self)@.no_duplicates(),
    {
        let mut i: usize = 0;
        assert(tags.deep_view().skip(0) =~= tags.deep_view());
        proof {
            use_type_invariant(&*self);
        }
        while i < tags.len()
            invariant
                i <= tags.len(),
                self@.no_duplicates(),
                insert_tags(old(self)@, tags.deep_view()) == insert_tags(
                    self@,
                    tags.deep_view().skip(i as int),
                ),
            decreases tags.len() - i,
        {
            proof {
                let rest = tags.deep_view().skip(i as int);
                assert(rest[0] == tags[i as int]@);
                assert(rest.drop_first() =~= tags.deep_view().skip(i + 1));
            }
            self.insert(tags[i].as_str());
            i += 1;
        }
    }

    /// Takes a tag out of the set.
    pub fn remove(&mut self, tag: &str)
        ensures
            final(self)@ == remove_tag(old(self)@, tag@),
            final(self)@.no_duplicates(),
    {
        proof {
            use_type_invariant(&*self);
            lemma_remove_tag_distinct(self@, tag@);
        }
        let mut i: usize = 0;
        while i < self.items.len()
            invariant
                i <= self.items.len(),
                *self == *old(self),
                self@.no_duplicates(),
                remove_tag(self@, tag@).no_duplicates(),
                forall|j: int| 0 <= j < i ==> #[trigger] self@[j] != tag@,
            decreases self.items.len() - i,
        {
            if str_eq(self.items[i].as_str(), tag) {
                let ghost before = self.items.deep_view();
                proof {
                    assert(before[i as int] == tag@);
                    assert(before.contains(tag@));
                    assert(before.index_of(tag@) == i);
                }
                let mut items = self.take_items();
                items.remove(i);
                assert(items.deep_view() =~= before.remove(i as int));
                self.items = items;
                return ;
            }
            i += 1;
        }
    }

    /// Takes each of `tags` out of the set in turn.
    pub fn remove_all(&mut self, tags: &Vec<String>)
        ensures
            final(self)@ == remove_tags(old(self)@, tags.deep_view()),
            final(self)@.no_duplicates(),
    {
        let mut i: usize = 0;
        assert(tags.deep_view().skip(0) =~= tags.deep_view());
        proof {
            use_type_invariant(&*self);
        }
        while i < tags.len()
            invariant
                i <= tags.len(),
                self@.no_duplicates(),
                remove_tags(old(self)@, tags.deep_view()) == remove_tags(
                    self@,
                    tags.deep_view().skip(i as int),
                ),
            decreases tags.len() - i,
        {
            proof {
                let rest = tags.deep_view().skip(i as int);
                assert(rest[0] == tags[i as int]@);
                assert(rest.drop_first() =~= tags.deep_view().skip(i + 1));
            }
            self.remove(tags[i].as_str());
            i += 1;
        }
    }

    /// Takes every tag out of the set.
    pub fn clear(&mut self)
        ensures
            final(self)@ == Seq::<Seq<char>>::empty(),
    {
        self.take_items();
    }

    /// The tags, in the order in which they were added, each once.
    pub fn to_vec(&self) -> (r: Vec<&str>)
        ensures
            r.deep_view() == self@,
            self@.no_duplicates(),
    {
        proof {
            use_type_invariant(self);
        }
        let mut out: Vec<&str> = Vec::new();
        let mut i: usize = 0;
        while i < self.items.len()
            invariant
                i <= self.items.len(),
                out.deep_view() == self@.take(i as int),
            decreases self.items.len() - i,
        {
            let ghost before = out.deep_view();
            out.push(self.items[i].as_str());
            assert(out.deep_view() =~= before.push(self@[i as int]));
            assert(self@.take(i + 1) =~= before.push(self@[i as int]));
            i += 1;
        }
        assert(self@.take(self.items.len() as int) =~= self@);
        out
    }

    /// The tags as the debug format writes a set: each tag in its debug
    /// format, a comma and a space between each two, in braces.
    pub fn debug(&self) -> (r: String)
        ensures
            r@ == debug_set(self@),
    {
        proof {
            reveal_strlit("{");
            reveal_strlit("}");
            reveal_strlit(", ");
            assert("{"@ =~= seq!['{']);
            assert("}"@ =~= seq!['}']);
            assert(", "@ =~= seq![',', ' ']);
        }
        let mut quoted: Vec<String> = Vec::new();
        let mut i: usize = 0;
        while i < self.items.len()
            invariant
                i <= self.items.len(),
                quoted@.len() == i,
                forall|j: int| 0 <= j < i ==> (#[trigger] quoted@[j])@ == debug_text(self@[j]),
            decreases self.items.len() - i,
        {
            quoted.push(debug_string(self.items[i].as_str()));
            i += 1;
        }
        assert(quoted.deep_view() =~= Seq::new(self@.len(), |j: int| debug_text(self@[j])));
        let mut out = String::from_str("{");
        out.append(join(&quoted, ", ").as_str());
        out.append("}");
        out
    }

    /// The tags in order, with `sep` between each two neighbours.
    pub fn join(&self, sep: &str) -> (r: String)
        ensures
            r@ == joined(self@, sep@),
    {
        join(&self.items, sep)
    }
}

} // verus!

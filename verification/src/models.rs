//! The data model of the broker: priorities, capability tag sets, and the
//! queued work item itself.

use vstd::prelude::*;

verus! {

/// The two priority classes. High drains strictly before Low.
#[derive(Clone, Copy, Debug, PartialEq, Eq, Structural)]
pub enum Priority {
    Low,
    High,
}

/// An unordered set of capability strings. A message is deliverable to a
/// consumer iff the message's required tags are a subset of the consumer's.
#[derive(Clone, Debug, PartialEq, Eq)]
pub struct Tags {
    inner: Vec<String>,
}

/// The set of character sequences occurring in a list of tags.
pub open spec fn tag_set_of(l: Seq<Seq<char>>) -> Set<Seq<char>> {
    Set::new(|s: Seq<char>| l.contains(s))
}

impl Tags {
    /// Whether `s` is one of the stored tags.
    pub closed spec fn contains_tag(&self, s: Seq<char>) -> bool {
        exists|i: int| 0 <= i < self.inner@.len() && self.inner@[i]@ == s
    }

    /// The stored tags in their storage order.
    pub closed spec fn list(&self) -> Seq<Seq<char>> {
        self.inner@.map_values(|s: String| s@)
    }

    /// The tag set is exactly the set of entries of the stored list.
    pub proof fn lemma_view_is_list_set(&self)
        ensures
            self@ == tag_set_of(self.list()),
    {
        assert forall|t: Seq<char>| #[trigger] self@.contains(t) <==> tag_set_of(
            self.list(),
        ).contains(t) by {
            if self.contains_tag(t) {
                let i = choose|i: int|
                    0 <= i < self.inner@.len() && self.inner@[i]@ == t;
                assert(self.list()[i] == t);
            }
            if self.list().contains(t) {
                let i = choose|i: int| 0 <= i < self.list().len() && self.list()[i] == t;
                assert(self.inner@[i]@ == t);
            }
        }
        assert(self@ =~= tag_set_of(self.list()));
    }

    /// The stored tag strings, for encoding.
    pub(crate) fn tag_strings(&self) -> (r: &Vec<String>)
        ensures
            r@.map_values(|s: String| s@) == self.list(),
    {
        &self.inner
    }

    /// Rebuilds a tag set from decoded strings.
    pub(crate) fn from_tag_strings(v: Vec<String>) -> (r: Tags)
        ensures
            r.list() == v@.map_values(|s: String| s@),
    {
        Tags { inner: v }
    }
}

impl View for Tags {
    type V = Set<Seq<char>>;

    closed spec fn view(&self) -> Set<Seq<char>> {
        Set::new(|s: Seq<char>| self.contains_tag(s))
    }
}

impl Tags {
    pub fn new() -> (r: Tags)
        ensures
            r@ == Set::<Seq<char>>::empty(),
    {
        let r = Tags { inner: Vec::new() };
        proof {
            assert(r@ =~= Set::<Seq<char>>::empty());
        }
        r
    }

    /// Adds one tag to the set.
    pub fn add_tag(&mut self, s: String)
        ensures
            final(self)@ == old(self)@.insert(s@),
    {
        let ghost pre = *self;
        self.inner.push(s);
        proof {
            assert forall|t: Seq<char>|
                #[trigger] self@.contains(t) <==> pre@.insert(s@).contains(t) by {
                if pre.contains_tag(t) {
                    let i = choose|i: int|
                        0 <= i < pre.inner@.len() && pre.inner@[i]@ == t;
                    assert(self.inner@[i]@ == t);
                }
                if t == s@ {
                    assert(self.inner@[self.inner@.len() - 1]@ == t);
                }
                if self.contains_tag(t) && !(t == s@) {
                    let i = choose|i: int|
                        0 <= i < self.inner@.len() && self.inner@[i]@ == t;
                    if i < pre.inner@.len() {
                        assert(pre.inner@[i]@ == t);
                    } else {
                        assert(self.inner@[i]@ == s@);
                    }
                }
            }
            assert(self@ =~= pre@.insert(s@));
        }
    }

    /// Whether `s` is already present.
    fn has_tag(&self, s: &String) -> (r: bool)
        ensures
            r == self.contains_tag(s@),
    {
        let mut i: usize = 0;
        while i < self.inner.len()
            invariant
                i <= self.inner@.len(),
                forall|j: int| 0 <= j < i ==> self.inner@[j]@ != s@,
            decreases self.inner@.len() - i,
        {
            if self.inner[i].eq(s) {
                return true;
            }
            i = i + 1;
        }
        false
    }

    /// Every tag of `self` is a tag of `other`.
    pub fn is_subset(&self, other: &Tags) -> (r: bool)
        ensures
            r == self@.subset_of(other@),
    {
        let mut i: usize = 0;
        while i < self.inner.len()
            invariant
                i <= self.inner@.len(),
                forall|j: int| 0 <= j < i ==> other.contains_tag(#[trigger] self.inner@[j]@),
            decreases self.inner@.len() - i,
        {
            if !other.has_tag(&self.inner[i]) {
                proof {
                    let w = self.inner@[i as int]@;
                    assert(self.contains_tag(w));
                    assert(self@.contains(w));
                    assert(!other@.contains(w));
                    assert(!self@.subset_of(other@));
                }
                return false;
            }
            i = i + 1;
        }
        proof {
            assert forall|t: Seq<char>| self@.contains(t) implies other@.contains(t) by {
                let j = choose|j: int|
                    0 <= j < self.inner@.len() && self.inner@[j]@ == t;
                assert(other.contains_tag(self.inner@[j]@));
            }
        }
        true
    }

    /// Every tag of `other` is a tag of `self`.
    pub fn is_superset(&self, other: &Tags) -> (r: bool)
        ensures
            r == other@.subset_of(self@),
    {
        other.is_subset(self)
    }
}

impl From<Vec<String>> for Tags {
    fn from(v: Vec<String>) -> (r: Tags) {
        Tags { inner: v }
    }
}

impl vstd::std_specs::convert::FromSpecImpl<Vec<String>> for Tags {
    open spec fn obeys_from_spec() -> bool {
        true
    }

    closed spec fn from_spec(v: Vec<String>) -> Tags {
        Tags { inner: v }
    }
}

/// The unit of queued work: an opaque payload, the tags a consumer must
/// offer, a fresh identifier, and a priority class.
#[derive(Clone, Debug, PartialEq, Eq)]
pub struct QueueItem {
    pub data: Vec<u8>,
    pub required_tags: Tags,
    pub id: u128,
    pub priority: Priority,
}

/// The mathematical content of a queue item: what survives encoding,
/// transport and restart.
pub struct ItemModel {
    pub data: Seq<u8>,
    pub tags: Seq<Seq<char>>,
    pub id: u128,
    pub priority: Priority,
}

impl ItemModel {
    /// The required capability set of the modelled item.
    pub open spec fn tag_set(&self) -> Set<Seq<char>> {
        tag_set_of(self.tags)
    }
}

impl View for QueueItem {
    type V = ItemModel;

    open spec fn view(&self) -> ItemModel {
        ItemModel {
            data: self.data@,
            tags: self.required_tags.list(),
            id: self.id,
            priority: self.priority,
        }
    }
}

/// A byte-for-byte copy.
pub(crate) fn copy_bytes(v: &Vec<u8>) -> (r: Vec<u8>)
    ensures
        r@ == v@,
{
    let mut out: Vec<u8> = Vec::new();
    out.extend_from_slice(v.as_slice());
    proof {
        assert(out@ =~= v@);
    }
    out
}

/// A copy of a tag set with the same stored list.
pub(crate) fn copy_tags(t: &Tags) -> (r: Tags)
    ensures
        r.list() == t.list(),
{
    let src = t.tag_strings();
    let mut v: Vec<String> = Vec::new();
    let mut k: usize = 0;
    while k < src.len()
        invariant
            k <= src@.len(),
            v@.map_values(|s: String| s@) == src@.map_values(|s: String| s@).take(k as int),
        decreases src@.len() - k,
    {
        let ghost pre = v@;
        v.push(src[k].clone());
        proof {
            assert(v@.map_values(|s: String| s@) =~= pre.map_values(|s: String| s@).push(
                src@[k as int]@,
            ));
            assert(src@.map_values(|s: String| s@).take(k + 1) =~= src@.map_values(
                |s: String| s@,
            ).take(k as int).push(src@[k as int]@));
        }
        k = k + 1;
    }
    proof {
        assert(src@.map_values(|s: String| s@).take(src@.len() as int) =~= src@.map_values(
            |s: String| s@,
        ));
    }
    Tags::from_tag_strings(v)
}

/// A field-for-field copy of an item, equal at the model level.
pub(crate) fn clone_item(item: &QueueItem) -> (r: QueueItem)
    ensures
        r@ == item@,
{
    QueueItem {
        data: copy_bytes(&item.data),
        required_tags: copy_tags(&item.required_tags),
        id: item.id,
        priority: item.priority,
    }
}

/// A copy of an in-flight entry, equal at the model level.
pub(crate) fn clone_entry(p: &(u128, QueueItem)) -> (r: (u128, QueueItem))
    ensures
        r.0 == p.0,
        r.1@ == p.1@,
        r.1.id == p.1.id,
{
    (p.0, clone_item(&p.1))
}

/// Relies on uuid::Uuid::new_v4 for identifier generation. The value is
/// random, so nothing is promised of it.
#[verifier::external_body]
fn fresh_id() -> u128 {
    uuid::Uuid::new_v4().as_u128()
}

impl QueueItem {
    /// Builds an item with a freshly generated identifier.
    pub fn new(data: Vec<u8>, tags: Tags, priority: Priority) -> (r: QueueItem)
        ensures
            r.data == data,
            r.required_tags == tags,
            r.priority == priority,
    {
        let id = fresh_id();
        QueueItem { data, required_tags: tags, priority, id }
    }

    /// Whether a consumer advertising `tags` may receive this item.
    pub fn can_be_handled_by(&self, tags: &Tags) -> (r: bool)
        ensures
            r == self.required_tags@.subset_of(tags@),
    {
        tags.is_superset(&self.required_tags)
    }
}

} // verus!

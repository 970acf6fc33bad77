//! Open Packaging Conventions: relationships between parts, and a package
//! of named parts with their relationships.

use vstd::prelude::*;

use crate::chars::{occurs_at, decimal, parse_u32, parse_u32_chars, push_decimal, str_chars, str_eq,
    to_owned_string};

pub mod rel_types;


use crate::xml::{attr_views, ev_views, indented, opt_attr, push_attr, push_opt_attr, write_indented, XmlEvent, XmlEventView};
use crate::xml_read::{
    budget_for, xml_event, xml_unread,
    event_budget, last_exact, last_exact_value, opt_view, read_event, reader_from_bytes, unread_len, ReadEvent, Tag,
};

verus! {

/// A single relationship entry.
#[derive(Debug, Clone, PartialEq)]
pub struct Relationship {
    pub id: String,
    pub rel_type: String,
    pub target: String,
    /// "External" for hyperlinks, None for internal parts.
    pub target_mode: Option<String>,
}

/// A collection of relationships (one `.rels` file).
#[derive(Debug, Clone)]
pub struct Relationships {
    pub items: Vec<Relationship>,
    next_id: u32,
}

/// The characters `rId`.
pub open spec fn rid_prefix() -> Seq<char> {
    seq!['r', 'I', 'd']
}

/// The number of an id of the form `rId<n>` (as `str::parse::<u32>` reads
/// what follows the prefix).
pub open spec fn rid_number(id: Seq<char>) -> Option<u32> {
    if id.len() >= 3 && id.take(3) == rid_prefix() {
        parse_u32(id.skip(3))
    } else {
        None
    }
}

/// The index of the first element satisfying `f`.
pub open spec fn first_match<T>(s: Seq<T>, f: spec_fn(T) -> bool) -> Option<int>
    decreases s.len(),
{
    if s.len() == 0 {
        None
    } else if f(s[0]) {
        Some(0)
    } else {
        match first_match(s.drop_first(), f) {
            Some(i) => Some(i + 1),
            None => None,
        }
    }
}

/// `first_match` finds the first element satisfying `f`, or there is none.
pub proof fn lemma_first_match<T>(s: Seq<T>, f: spec_fn(T) -> bool)
    ensures
        first_match(s, f) matches Some(i) ==> 0 <= i < s.len() && f(s[i]) && forall|j: int|
            0 <= j < i ==> !f(#[trigger] s[j]),
        first_match(s, f) is None ==> forall|j: int| 0 <= j < s.len() ==> !f(#[trigger] s[j]),
    decreases s.len(),
{
    if s.len() > 0 {
        lemma_first_match(s.drop_first(), f);
        assert forall|j: int| 1 <= j < s.len() implies s[j] == s.drop_first()[j - 1] by {}
    }
}

/// An index is `first_match` when it satisfies `f` and nothing before does.
pub proof fn lemma_first_match_at<T>(s: Seq<T>, f: spec_fn(T) -> bool, i: int)
    requires
        0 <= i < s.len(),
        f(s[i]),
        forall|j: int| 0 <= j < i ==> !f(#[trigger] s[j]),
    ensures
        first_match(s, f) == Some(i),
    decreases s.len(),
{
    if i > 0 {
        assert(!f(s[0]));
        assert forall|j: int| 0 <= j < i - 1 implies !f(#[trigger] s.drop_first()[j]) by {
            assert(s.drop_first()[j] == s[j + 1]);
        }
        lemma_first_match_at(s.drop_first(), f, i - 1);
    }
}

/// No element satisfying `f` means no first match.
pub proof fn lemma_first_match_none<T>(s: Seq<T>, f: spec_fn(T) -> bool)
    requires
        forall|j: int| 0 <= j < s.len() ==> !f(#[trigger] s[j]),
    ensures
        first_match(s, f) is None,
    decreases s.len(),
{
    if s.len() > 0 {
        assert forall|j: int| 0 <= j < s.len() - 1 implies !f(#[trigger] s.drop_first()[j]) by {
            assert(s.drop_first()[j] == s[j + 1]);
        }
        lemma_first_match_none(s.drop_first(), f);
    }
}

/// The predicate "has id `id`".
pub open spec fn has_id(id: Seq<char>) -> spec_fn(Relationship) -> bool {
    |r: Relationship| r.id@ == id
}

/// The predicate "has type `t`".
pub open spec fn has_type(t: Seq<char>) -> spec_fn(Relationship) -> bool {
    |r: Relationship| r.rel_type@ == t
}

/// The relationships of type `t`, in order.
pub open spec fn rels_of_type(s: Seq<Relationship>, t: Seq<char>) -> Seq<Relationship>
    decreases s.len(),
{
    if s.len() == 0 {
        Seq::empty()
    } else if s.last().rel_type@ == t {
        rels_of_type(s.drop_last(), t).push(s.last())
    } else {
        rels_of_type(s.drop_last(), t)
    }
}

/// The first relationship of a type, as `get_by_type` finds it, is the
/// first of those `get_all_by_type` lists; there is one exactly when that
/// list is not empty.
pub proof fn lemma_first_of_type(s: Seq<Relationship>, t: Seq<char>)
    ensures
        (rels_of_type(s, t).len() > 0) == (first_match(s, has_type(t)) is Some),
        first_match(s, has_type(t)) matches Some(i) ==> rels_of_type(s, t)[0] == s[i],
    decreases s.len(),
{
    lemma_first_match(s, has_type(t));
    if s.len() > 0 {
        let p = s.drop_last();
        lemma_first_of_type(p, t);
        lemma_first_match(p, has_type(t));
        assert forall|j: int| 0 <= j < p.len() implies #[trigger] s[j] == p[j] by {}
        match first_match(p, has_type(t)) {
            Some(i) => {
                assert(has_type(t)(s[i]));
                assert forall|j: int| 0 <= j < i implies !has_type(t)(#[trigger] s[j]) by {
                    assert(s[j] == p[j]);
                }
                lemma_first_match_at(s, has_type(t), i);
            },
            None => {
                if s.last().rel_type@ == t {
                    assert forall|j: int| 0 <= j < s.len() - 1 implies !has_type(t)(#[trigger] s[j]) by {
                        assert(s[j] == p[j]);
                    }
                    lemma_first_match_at(s, has_type(t), s.len() - 1);
                    assert(rels_of_type(p, t).len() == 0);
                } else {
                    assert forall|j: int| 0 <= j < s.len() implies !has_type(t)(#[trigger] s[j]) by {
                        if j < s.len() - 1 {
                            assert(s[j] == p[j]);
                        }
                    }
                    lemma_first_match_none(s, has_type(t));
                }
            },
        }
    }
}

/// The relationships whose id is not `id`, in order.
pub open spec fn without_id(s: Seq<Relationship>, id: Seq<char>) -> Seq<Relationship>
    decreases s.len(),
{
    if s.len() == 0 {
        Seq::empty()
    } else if s.last().id@ != id {
        without_id(s.drop_last(), id).push(s.last())
    } else {
        without_id(s.drop_last(), id)
    }
}

/// `rId` followed by the decimal digits of `n`.
pub open spec fn rid(n: nat) -> Seq<char> {
    rid_prefix() + decimal(n)
}

/// The id `rId<n>` has number `n`.
pub proof fn lemma_rid_number(n: u32)
    ensures
        rid_number(rid(n as nat)) == Some(n),
{
    let s = rid(n as nat);
    assert(s.take(3) =~= rid_prefix());
    assert(s.skip(3) =~= decimal(n as nat));
    crate::chars::lemma_parse_decimal(n);
}

impl View for Relationships {
    type V = Seq<Relationship>;

    /// The relationships, in order.
    closed spec fn view(&self) -> Seq<Relationship> {
        self.items@
    }
}

impl Relationships {
    /// Every id of the form `rId<n>` has `n` below the next number to give
    /// out, so the ids `add` makes are fresh.
    pub closed spec fn wf(&self) -> bool {
        forall|i: int| 0 <= i < self.items@.len() ==> (rid_number(#[trigger] self.items@[i].id@) matches Some(
            n) ==> n < self.next_id)
    }

    /// The number the next added relationship's id gets.
    pub closed spec fn next_number(&self) -> u32 {
        self.next_id
    }

    /// An empty set of relationships; ids are numbered from `rId1`.
    pub fn new() -> (r: Self)
        ensures
            r@.len() == 0,
            r.next_number() == 1,
            r.wf(),
    {
        Relationships { items: Vec::new(), next_id: 1 }
    }

    /// The first relationship with the given id.
    pub fn get_by_id(&self, id: &str) -> (r: Option<&Relationship>)
        ensures
            r matches Some(x) ==> first_match(self@, has_id(id@)) matches Some(i) && *x
                == self@[i],
            r is None ==> first_match(self@, has_id(id@)) is None,
    {
        proof { lemma_first_match(self@, has_id(id@)); }
        let mut i: usize = 0;
        while i < self.items.len()
            invariant
                i <= self@.len(),
                forall|j: int| 0 <= j < i ==> !has_id(id@)(#[trigger] self@[j]),
            decreases self@.len() - i,
        {
            if str_eq(self.items[i].id.as_str(), id) {
                proof { lemma_first_match_at(self@, has_id(id@), i as int); }
                return Some(&self.items[i]);
            }
            i = i + 1;
        }
        proof { lemma_first_match_none(self@, has_id(id@)); }
        None
    }

    /// The first relationship of the given type.
    pub fn get_by_type(&self, rel_type: &str) -> (r: Option<&Relationship>)
        ensures
            r matches Some(x) ==> first_match(self@, has_type(rel_type@)) matches Some(i)
                && *x == self@[i],
            r is None ==> first_match(self@, has_type(rel_type@)) is None,
    {
        let mut i: usize = 0;
        while i < self.items.len()
            invariant
                i <= self@.len(),
                forall|j: int| 0 <= j < i ==> !has_type(rel_type@)(#[trigger] self@[j]),
            decreases self@.len() - i,
        {
            if str_eq(self.items[i].rel_type.as_str(), rel_type) {
                proof { lemma_first_match_at(self@, has_type(rel_type@), i as int); }
                return Some(&self.items[i]);
            }
            i = i + 1;
        }
        proof { lemma_first_match_none(self@, has_type(rel_type@)); }
        None
    }

    /// All relationships of the given type, in order.
    pub fn get_all_by_type(&self, rel_type: &str) -> (r: Vec<&Relationship>)
        ensures
            r@.len() == rels_of_type(self@, rel_type@).len(),
            forall|k: int| 0 <= k < r@.len() ==> *r@[k] == rels_of_type(self@, rel_type@)[k],
    {
        let mut out: Vec<&Relationship> = Vec::new();
        let mut i: usize = 0;
        while i < self.items.len()
            invariant
                i <= self@.len(),
                out@.len() == rels_of_type(self@.take(i as int), rel_type@).len(),
                forall|k: int| 0 <= k < out@.len() ==> *out@[k] == rels_of_type(
                    self@.take(i as int), rel_type@)[k],
            decreases self@.len() - i,
        {
            proof {
                assert(self@.take(i + 1).drop_last() =~= self@.take(i as int));
            }
            if str_eq(self.items[i].rel_type.as_str(), rel_type) {
                out.push(&self.items[i]);
            }
            i = i + 1;
        }
        proof { assert(self@.take(i as int) =~= self@); }
        out
    }

    /// Add a relationship with the next generated id (`rId<n>`), which is
    /// returned.
    pub fn add(&mut self, rel_type: &str, target: &str) -> (r: String)
        requires
            old(self).wf(),
            old(self).next_number() < u32::MAX,
        ensures
            r@ == rid(old(self).next_number() as nat),
            final(self).wf(),
            final(self).next_number() == old(self).next_number() + 1,
            final(self)@.len() == old(self)@.len() + 1,
            forall|i: int| 0 <= i < old(self)@.len() ==> final(self)@[i] == old(self)@[i],
            forall|i: int| 0 <= i < old(self)@.len() ==> old(self)@[i].id@ != r@,
            final(self)@.last().id@ == r@,
            final(self)@.last().rel_type@ == rel_type@,
            final(self)@.last().target@ == target@,
            final(self)@.last().target_mode is None,
    {
        self.push_numbered(rel_type, target, None)
    }

    /// Add an external relationship (e.g. a hyperlink) with the next
    /// generated id, which is returned.
    pub fn add_external(&mut self, rel_type: &str, target: &str) -> (r: String)
        requires
            old(self).wf(),
            old(self).next_number() < u32::MAX,
        ensures
            r@ == rid(old(self).next_number() as nat),
            final(self).wf(),
            final(self).next_number() == old(self).next_number() + 1,
            final(self)@.len() == old(self)@.len() + 1,
            forall|i: int| 0 <= i < old(self)@.len() ==> final(self)@[i] == old(self)@[i],
            forall|i: int| 0 <= i < old(self)@.len() ==> old(self)@[i].id@ != r@,
            final(self)@.last().id@ == r@,
            final(self)@.last().rel_type@ == rel_type@,
            final(self)@.last().target@ == target@,
            final(self)@.last().target_mode matches Some(m) && m@ == seq!['E', 'x', 't',
                'e', 'r', 'n', 'a', 'l'],
    {
        let mode = to_owned_string("External");
        proof { reveal_strlit("External"); }
        self.push_numbered(rel_type, target, Some(mode))
    }

    /// Push a relationship with the next generated id.
    fn push_numbered(&mut self, rel_type: &str, target: &str, mode: Option<String>) -> (r: String)
        requires
            old(self).wf(),
            old(self).next_number() < u32::MAX,
        ensures
            r@ == rid(old(self).next_number() as nat),
            final(self).wf(),
            final(self).next_number() == old(self).next_number() + 1,
            final(self)@ == old(self)@.push(final(self)@.last()),
            forall|i: int| 0 <= i < old(self)@.len() ==> old(self)@[i].id@ != r@,
            final(self)@.last().id@ == r@,
            final(self)@.last().rel_type@ == rel_type@,
            final(self)@.last().target@ == target@,
            final(self)@.last().target_mode == mode,
    {
        let n = self.next_id;
        let mut id = String::new();
        push_str_prefix_rid(&mut id);
        push_decimal(&mut id, n as u64);
        proof {
            lemma_rid_number(n);
            assert(id@ =~= rid(n as nat));
            assert forall|i: int| 0 <= i < self@.len() implies self@[i].id@ != id@ by {
                if self@[i].id@ == id@ {
                    assert(rid_number(self@[i].id@) == Some(n));
                }
            }
        }
        let ghost old_items = self@;
        let rel = Relationship {
            id: to_owned_string(id.as_str()),
            rel_type: to_owned_string(rel_type),
            target: to_owned_string(target),
            target_mode: mode,
        };
        self.items.push(rel);
        self.next_id = n + 1;
        proof {
            assert(self@.drop_last() =~= old_items);
            assert forall|i: int| 0 <= i < self.items@.len() implies (rid_number(#[trigger] self.items@[i].id@) matches Some(
                m) ==> m < self.next_id) by {
                if i < old_items.len() {
                    assert(self@[i] == old_items[i]);
                }
            }
        }
        id
    }

    /// Add a relationship with a specific id, replacing any relationship
    /// with that id; a numbered id at or past the next number moves the
    /// next number past it.
    pub fn add_with_id(&mut self, id: &str, rel_type: &str, target: &str)
        requires
            old(self).wf(),
            rid_number(id@) != Some(u32::MAX),
        ensures
            final(self).wf(),
            final(self)@.len() == without_id(old(self)@, id@).len() + 1,
            forall|i: int| 0 <= i < final(self)@.len() - 1 ==> final(self)@[i]
                == without_id(old(self)@, id@)[i],
            final(self)@.last().id@ == id@,
            final(self)@.last().rel_type@ == rel_type@,
            final(self)@.last().target@ == target@,
            final(self)@.last().target_mode is None,
            final(self).next_number() == (match rid_number(id@) {
                Some(n) => if n >= old(self).next_number() { (n + 1) as u32 } else { old(self).next_number() },
                None => old(self).next_number(),
            }),
    {
        let ghost all = self@;
        let mut rest: Vec<Relationship> = Vec::new();
        std::mem::swap(&mut rest, &mut self.items);
        let mut kept: Vec<Relationship> = Vec::new();
        let ghost mut k: int = 0;
        proof {
            assert(rest@ =~= all.skip(0));
            assert(all.take(0) =~= Seq::<Relationship>::empty());
        }
        while rest.len() > 0
            invariant
                0 <= k <= all.len(),
                rest@ == all.skip(k),
                kept@ == without_id(all.take(k), id@),
                forall|j: int| 0 <= j < all.len() ==> (rid_number(#[trigger] all[j].id@) matches Some(n)
                    ==> n < self.next_id),
                forall|j: int| 0 <= j < kept@.len() ==> (rid_number(#[trigger] kept@[j].id@) matches Some(n)
                    ==> n < self.next_id),
            decreases rest@.len(),
        {
            proof {
                assert(all.take(k + 1).drop_last() =~= all.take(k));
                assert(all[k] == rest@[0]);
            }
            let r = rest.remove(0);
            if !str_eq(r.id.as_str(), id) {
                let ghost before = kept@;
                proof {
                    assert(r == all[k]);
                    assert(rid_number(all[k].id@) matches Some(n) ==> n < self.next_id);
                }
                kept.push(r);
                proof {
                    assert forall|j: int| 0 <= j < kept@.len() implies (rid_number(
                        #[trigger] kept@[j].id@) matches Some(n) ==> n < self.next_id) by {
                        if j < before.len() {
                            assert(kept@[j] == before[j]);
                            assert(rid_number(before[j].id@) matches Some(n) ==> n < self.next_id);
                        } else {
                            assert(kept@[j] == all[k]);
                        }
                    }
                }
            }
            proof {
                k = k + 1;
                assert(rest@ =~= all.skip(k));
            }
        }
        proof { assert(all.take(k) =~= all); }
        let ghost old_next = self.next_id;
        let ghost kept_before = kept;
        kept.push(Relationship {
            id: to_owned_string(id),
            rel_type: to_owned_string(rel_type),
            target: to_owned_string(target),
            target_mode: None,
        });
        self.items = kept;
        let digits = str_chars(id);
        if digits.len() >= 3 && digits[0] == 'r' && digits[1] == 'I' && digits[2] == 'd' {
            let tail = tail_from(digits.as_slice(), 3);
            proof {
                assert(digits@.take(3) =~= rid_prefix());
                assert(tail@ =~= id@.skip(3));
            }
            match parse_u32_chars(tail.as_slice()) {
                Some(num) => {
                    if num >= self.next_id {
                        self.next_id = num + 1;
                    }
                },
                None => {},
            }
        } else {
            proof {
                if id@.len() >= 3 {
                    assert(id@.take(3) != rid_prefix()) by {
                        if id@.take(3) == rid_prefix() {
                            assert(id@.take(3)[0] == 'r');
                        }
                    }
                }
            }
        }
        proof {
            assert(self.next_id >= old_next);
            assert(rid_number(id@) matches Some(m) ==> m < self.next_id);
            assert forall|i: int| 0 <= i < self.items@.len() implies (rid_number(
                #[trigger] self.items@[i].id@) matches Some(m) ==> m < self.next_id) by {
                if i < self.items@.len() - 1 {
                    assert(self.items@[i] == kept_before@[i]);
                    assert(rid_number(kept_before@[i].id@) matches Some(m) ==> m < old_next);
                } else {
                    assert(self.items@[i].id@ == id@);
                }
            }
        }
    }
}

impl Default for Relationships {
    /// No relationships; ids are numbered from `rId0`.
    fn default() -> (r: Self)
        ensures
            r@.len() == 0,
            r.next_number() == 0,
            r.wf(),
    {
        Relationships { items: Vec::new(), next_id: 0 }
    }
}

/// Appends `rId`.
fn push_str_prefix_rid(s: &mut String)
    ensures
        final(s)@ == old(s)@ + rid_prefix(),
{
    crate::chars::push_char(s, 'r');
    crate::chars::push_char(s, 'I');
    crate::chars::push_char(s, 'd');
    proof { assert(final(s)@ =~= old(s)@ + rid_prefix()); }
}

/// The characters of `s` from position `k` on.
pub fn tail_from(s: &[char], k: usize) -> (r: Vec<char>)
    requires
        k <= s@.len(),
    ensures
        r@ == s@.skip(k as int),
{
    let mut out: Vec<char> = Vec::new();
    let mut i: usize = k;
    while i < s.len()
        invariant
            k <= i <= s@.len(),
            out@ == s@.subrange(k as int, i as int),
        decreases s@.len() - i,
    {
        out.push(s[i]);
        i = i + 1;
        proof { assert(out@ =~= s@.subrange(k as int, i as int)); }
    }
    proof { assert(out@ =~= s@.skip(k as int)); }
    out
}

/// After adding a relationship whose id no earlier one has, looking its id
/// up finds the added relationship.
pub proof fn lemma_added_is_found(before: Seq<Relationship>, after: Seq<Relationship>)
    requires
        after.len() == before.len() + 1,
        forall|i: int| 0 <= i < before.len() ==> after[i] == before[i],
        forall|i: int| 0 <= i < before.len() ==> before[i].id@ != after.last().id@,
    ensures
        first_match(after, has_id(after.last().id@)) == Some(before.len() as int),
{
    let f = has_id(after.last().id@);
    assert forall|j: int| 0 <= j < before.len() implies !f(#[trigger] after[j]) by {
        assert(after[j] == before[j]);
    }
    lemma_first_match_at(after, f, before.len() as int);
}

/// No relationship left by `without_id` has the removed id.
pub proof fn lemma_without_id(s: Seq<Relationship>, id: Seq<char>)
    ensures
        forall|i: int| 0 <= i < without_id(s, id).len() ==> (#[trigger] without_id(s, id)[i]).id@
            != id,
    decreases s.len(),
{
    if s.len() > 0 {
        lemma_without_id(s.drop_last(), id);
    }
}

/// After `add_with_id`, looking the id up finds the new relationship.
pub proof fn lemma_added_with_id_is_found(before: Seq<Relationship>, after: Seq<Relationship>, id: Seq<char>)
    requires
        after.len() == without_id(before, id).len() + 1,
        forall|i: int| 0 <= i < after.len() - 1 ==> after[i] == without_id(before, id)[i],
        after.last().id@ == id,
    ensures
        first_match(after, has_id(id)) == Some(after.len() - 1),
{
    lemma_without_id(before, id);
    let f = has_id(id);
    assert forall|j: int| 0 <= j < after.len() - 1 implies !f(#[trigger] after[j]) by {
        assert(after[j] == without_id(before, id)[j]);
    }
    lemma_first_match_at(after, f, after.len() - 1);
}

/// A part of a package: its name and its bytes.
#[derive(Debug, Clone)]
pub struct PackagePart {
    pub name: String,
    pub data: Vec<u8>,
}

/// The `[Content_Types].xml` part: default content types by file
/// extension and overrides by part name.
#[derive(Debug, Clone)]
pub struct ContentTypes {
    /// (extension, content type)
    pub defaults: Vec<(String, String)>,
    /// (part name, content type)
    pub overrides: Vec<(String, String)>,
}

impl ContentTypes {
    /// The content types of a minimal document package: `rels` and `xml`
    /// by extension, and the main document part.
    pub fn new_docx() -> (r: Self)
        ensures
            r.defaults@.len() == 2,
            r.defaults@[0].0@ == "rels"@,
            r.defaults@[0].1@ == "application/vnd.openxmlformats-package.relationships+xml"@,
            r.defaults@[1].0@ == "xml"@,
            r.defaults@[1].1@ == "application/xml"@,
            r.overrides@.len() == 1,
            r.overrides@[0].0@ == "/word/document.xml"@,
            r.overrides@[0].1@ == "application/vnd.openxmlformats-officedocument.wordprocessingml.document.main+xml"@,
    {
        let mut defaults: Vec<(String, String)> = Vec::new();
        defaults.push((to_owned_string("rels"), to_owned_string(
            "application/vnd.openxmlformats-package.relationships+xml",
        )));
        defaults.push((to_owned_string("xml"), to_owned_string("application/xml")));
        let mut overrides: Vec<(String, String)> = Vec::new();
        overrides.push((to_owned_string("/word/document.xml"), to_owned_string(
            "application/vnd.openxmlformats-officedocument.wordprocessingml.document.main+xml",
        )));
        ContentTypes { defaults, overrides }
    }
}

/// An OPC package: content types, package-level relationships, the
/// relationships of each part, and the parts' bytes. Parts and part
/// relationships are held by name, each name at most once.
#[derive(Debug, Clone)]
pub struct OpcPackage {
    pub content_types: ContentTypes,
    pub package_rels: Relationships,
    /// part name → relationships of that part
    pub part_rels: Vec<(String, Relationships)>,
    /// part name (with leading `/`) → part bytes
    pub parts: Vec<(String, Vec<u8>)>,
}

/// The predicate "has key `k`" on named entries.
pub open spec fn key_is<V>(k: Seq<char>) -> spec_fn((String, V)) -> bool {
    |e: (String, V)| e.0@ == k
}

/// The bytes stored under `name`, if any.
pub open spec fn part_data(parts: Seq<(String, Vec<u8>)>, name: Seq<char>) -> Option<Seq<u8>> {
    match first_match(parts, key_is::<Vec<u8>>(name)) {
        Some(i) => Some(parts[i].1@),
        None => None,
    }
}

/// Whether no name occurs twice among the entries.
pub open spec fn keys_distinct<V>(s: Seq<(String, V)>) -> bool {
    forall|i: int, j: int| 0 <= i < j < s.len() ==> (#[trigger] s[i]).0@ != (#[trigger] s[j]).0@
}

/// The index of the entry named `name`.
fn find_key<V>(s: &Vec<(String, V)>, name: &str) -> (r: Option<usize>)
    ensures
        r matches Some(i) ==> first_match(s@, key_is::<V>(name@)) == Some(i as int) && i < s@.len(),
        r is None ==> first_match(s@, key_is::<V>(name@)) is None,
{
    let mut i: usize = 0;
    while i < s.len()
        invariant
            i <= s@.len(),
            forall|j: int| 0 <= j < i ==> !key_is::<V>(name@)(#[trigger] s@[j]),
        decreases s@.len() - i,
    {
        if str_eq(s[i].0.as_str(), name) {
            proof { lemma_first_match_at(s@, key_is::<V>(name@), i as int); }
            return Some(i);
        }
        i = i + 1;
    }
    proof { lemma_first_match_none(s@, key_is::<V>(name@)); }
    None
}

/// The directory part of `s` up to and including its last `/`, if any.
pub open spec fn last_slash(s: Seq<char>) -> Option<int>
    decreases s.len(),
{
    if s.len() == 0 {
        None
    } else if s.last() == '/' {
        Some(s.len() - 1)
    } else {
        last_slash(s.drop_last())
    }
}

/// `last_slash` is the position of a `/` with none after it.
pub proof fn lemma_last_slash(s: Seq<char>)
    ensures
        last_slash(s) matches Some(p) ==> 0 <= p < s.len() && s[p] == '/' && forall|j: int|
            p < j < s.len() ==> s[j] != '/',
        last_slash(s) is None ==> forall|j: int| 0 <= j < s.len() ==> s[j] != '/',
    decreases s.len(),
{
    if s.len() > 0 {
        lemma_last_slash(s.drop_last());
        assert forall|j: int| 0 <= j < s.len() - 1 implies s.drop_last()[j] == s[j] by {}
    }
}

/// The position of the last `/` in `s`.
pub fn rfind_slash(s: &[char]) -> (r: Option<usize>)
    ensures
        r matches Some(i) ==> last_slash(s@) == Some(i as int) && i < s@.len(),
        r is None ==> last_slash(s@) is None,
{
    let mut i: usize = s.len();
    proof { assert(s@.take(i as int) =~= s@); }
    while i > 0
        invariant
            i <= s@.len(),
            last_slash(s@) == last_slash(s@.take(i as int)),
        decreases i,
    {
        proof {
            assert(s@.take(i as int).drop_last() =~= s@.take(i - 1));
            assert(s@.take(i as int).last() == s@[i - 1]);
        }
        if s[i - 1] == '/' {
            return Some(i - 1);
        }
        i = i - 1;
    }
    proof { assert(s@.take(0) =~= Seq::<char>::empty()); }
    None
}

/// What `resolve_rel_target` gives: an absolute target as it is; a relative
/// one after the source part's directory (or `/`).
pub open spec fn resolved_target(source: Seq<char>, target: Seq<char>) -> Seq<char> {
    if target.len() > 0 && target[0] == '/' {
        target
    } else {
        match last_slash(source) {
            Some(p) => source.take(p + 1) + target,
            None => seq!['/'] + target,
        }
    }
}

/// `/` before `s` unless it starts with one.
pub open spec fn absolute(s: Seq<char>) -> Seq<char> {
    if s.len() > 0 && s[0] == '/' {
        s
    } else {
        seq!['/'] + s
    }
}

/// A `String` holding `s`, with a `/` in front unless it starts with one.
fn make_absolute(s: &str) -> (r: String)
    ensures
        r@ == absolute(s@),
{
    let cs = str_chars(s);
    if cs.len() > 0 && cs[0] == '/' {
        to_owned_string(s)
    } else {
        let mut out = String::new();
        crate::chars::push_char(&mut out, '/');
        crate::chars::push_str(&mut out, s);
        proof { assert(out@ =~= absolute(s@)); }
        out
    }
}

impl OpcPackage {
    /// Get a part's data by name.
    pub fn get_part(&self, part_name: &str) -> (r: Option<&[u8]>)
        ensures
            r matches Some(d) ==> part_data(self.parts@, part_name@) == Some(d@),
            r is None ==> part_data(self.parts@, part_name@) is None,
    {
        match find_key(&self.parts, part_name) {
            Some(i) => Some(self.parts[i].1.as_slice()),
            None => None,
        }
    }

    /// Set (add or replace) a part.
    pub fn set_part(&mut self, part_name: &str, data: Vec<u8>)
        ensures
            part_data(final(self).parts@, part_name@) == Some(data@),
            forall|k: Seq<char>| k != part_name@ ==> part_data(final(self).parts@, k) == part_data(
                old(self).parts@, k),
            keys_distinct(old(self).parts@) ==> keys_distinct(final(self).parts@),
            final(self).package_rels == old(self).package_rels,
            final(self).part_rels == old(self).part_rels,
            final(self).content_types == old(self).content_types,
    {
        let ghost old_parts = self.parts@;
        proof { lemma_first_match(old_parts, key_is::<Vec<u8>>(part_name@)); }
        match find_key(&self.parts, part_name) {
            Some(i) => {
                let ghost d = data@;
                self.parts.set(i, (to_owned_string(part_name), data));
                proof {
                    let np = self.parts@;
                    assert forall|j: int| 0 <= j < i implies !key_is::<Vec<u8>>(part_name@)(
                        #[trigger] np[j]) by {
                        assert(np[j] == old_parts[j]);
                    }
                    lemma_first_match_at(np, key_is::<Vec<u8>>(part_name@), i as int);
                    assert forall|k: Seq<char>| k != part_name@ implies part_data(np, k) == part_data(
                        old_parts, k) by {
                        lemma_same_first_match(old_parts, np, k, i as int);
                    }
                }
            },
            None => {
                self.parts.push((to_owned_string(part_name), data));
                proof {
                    let np = self.parts@;
                    assert forall|j: int| 0 <= j < old_parts.len() implies !key_is::<Vec<u8>>(
                        part_name@)(#[trigger] np[j]) by {
                        assert(np[j] == old_parts[j]);
                    }
                    lemma_first_match_at(np, key_is::<Vec<u8>>(part_name@), old_parts.len() as int);
                    assert forall|k: Seq<char>| k != part_name@ implies part_data(np, k) == part_data(
                        old_parts, k) by {
                        lemma_same_first_match(old_parts, np, k, old_parts.len() as int);
                    }
                }
            },
        }
    }

    /// Get the relationships of a part.
    pub fn get_part_rels(&self, part_name: &str) -> (r: Option<&Relationships>)
        ensures
            r matches Some(x) ==> first_match(self.part_rels@, key_is::<Relationships>(part_name@))
                matches Some(i) && *x == self.part_rels@[i].1,
            r is None ==> first_match(self.part_rels@, key_is::<Relationships>(part_name@)) is None,
    {
        match find_key(&self.part_rels, part_name) {
            Some(i) => Some(&self.part_rels[i].1),
            None => None,
        }
    }

    /// Get or create the relationships of a part; a new one has no
    /// relationships and numbers ids from `rId0`.
    pub fn get_or_create_part_rels(&mut self, part_name: &str) -> (r: &mut Relationships)
        ensures
            first_match(old(self).part_rels@, key_is::<Relationships>(part_name@)) matches Some(i)
                ==> *r == old(self).part_rels@[i].1 && final(self).part_rels@ == old(
                self).part_rels@.update(i, (old(self).part_rels@[i].0, *final(r))),
            first_match(old(self).part_rels@, key_is::<Relationships>(part_name@)) is None ==> {
                &&& r@.len() == 0
                &&& r.next_number() == 0
                &&& r.wf()
                &&& final(self).part_rels@.len() == old(self).part_rels@.len() + 1
                &&& forall|j: int| 0 <= j < old(self).part_rels@.len() ==> final(self).part_rels@[j]
                    == old(self).part_rels@[j]
                &&& final(self).part_rels@.last().0@ == part_name@
                &&& final(self).part_rels@.last().1 == *final(r)
            },
            final(self).parts == old(self).parts,
            final(self).package_rels == old(self).package_rels,
            final(self).content_types == old(self).content_types,
    {
        let i = match find_key(&self.part_rels, part_name) {
            Some(i) => i,
            None => {
                self.part_rels.push((to_owned_string(part_name), Relationships::default()));
                self.part_rels.len() - 1
            },
        };
        &mut self.part_rels[i].1
    }

    /// Resolve a relationship target relative to the source part's directory.
    pub fn resolve_rel_target(source_part: &str, rel_target: &str) -> (r: String)
        ensures
            r@ == resolved_target(source_part@, rel_target@),
    {
        let t = str_chars(rel_target);
        if t.len() > 0 && t[0] == '/' {
            return to_owned_string(rel_target);
        }
        let src = str_chars(source_part);
        let src_len = src.len();
        let mut out = String::new();
        match rfind_slash(src.as_slice()) {
            Some(p) => {
                let dir = crate::chars::string_from_chars(prefix_chars(src.as_slice(), p + 1).as_slice());
                crate::chars::push_str(&mut out, dir.as_str());
            },
            None => {
                crate::chars::push_char(&mut out, '/');
            },
        }
        crate::chars::push_str(&mut out, rel_target);
        proof {
            match last_slash(src@) {
                Some(p) => { assert(out@ =~= src@.take(p + 1) + rel_target@); },
                None => { assert(out@ =~= seq!['/'] + rel_target@); },
            }
        }
        out
    }

    /// The main document part's name (from the package relationships), with
    /// a leading `/`.
    pub fn main_document_part(&self) -> (r: Option<String>)
        ensures
            r matches Some(n) ==> first_match(self.package_rels@, has_type(rel_types::DOCUMENT@))
                matches Some(i) && n@ == absolute(self.package_rels@[i].target@),
            r is None ==> first_match(self.package_rels@, has_type(rel_types::DOCUMENT@)) is None,
    {
        match self.package_rels.get_by_type(rel_types::DOCUMENT) {
            Some(rel) => Some(make_absolute(rel.target.as_str())),
            None => None,
        }
    }

    /// A new package for a document: docx content types and a package
    /// relationship `rId1` to `word/document.xml`.
    pub fn new_docx() -> (r: Self)
        ensures
            r.package_rels@.len() == 1,
            r.package_rels@[0].id@ == rid(1),
            r.package_rels@[0].rel_type@ == rel_types::DOCUMENT@,
            r.package_rels@[0].target@ == "word/document.xml"@,
            r.package_rels@[0].target_mode is None,
            r.package_rels.wf(),
            r.part_rels@.len() == 0,
            r.parts@.len() == 0,
    {
        let content_types = ContentTypes::new_docx();
        let mut package_rels = Relationships::new();
        package_rels.add(rel_types::DOCUMENT, "word/document.xml");
        OpcPackage { content_types, package_rels, part_rels: Vec::new(), parts: Vec::new() }
    }
}

/// The first `n` characters of `s`.
pub fn prefix_chars(s: &[char], n: usize) -> (r: Vec<char>)
    requires
        n <= s@.len(),
    ensures
        r@ == s@.take(n as int),
{
    let mut out: Vec<char> = Vec::new();
    let mut i: usize = 0;
    while i < n
        invariant
            i <= n <= s@.len(),
            out@ == s@.take(i as int),
        decreases n - i,
    {
        out.push(s[i]);
        i = i + 1;
        proof { assert(out@ =~= s@.take(i as int)); }
    }
    out
}

/// Changing or adding the entry at `i` named `name` leaves the first entry
/// of every other name where it was.
proof fn lemma_same_first_match(old: Seq<(String, Vec<u8>)>, new: Seq<(String, Vec<u8>)>, k: Seq<char>, i: int)
    requires
        0 <= i <= old.len(),
        new.len() == if i == old.len() { old.len() + 1 } else { old.len() },
        forall|j: int| 0 <= j < old.len() && j != i ==> new[j] == old[j],
        i < old.len() ==> old[i].0@ == new[i].0@,
        new[i].0@ != k,
    ensures
        part_data(new, k) == part_data(old, k),
{
    let f = key_is::<Vec<u8>>(k);
    lemma_first_match(old, f);
    lemma_first_match(new, f);
    match first_match(old, f) {
        Some(m) => {
            assert(m != i);
            assert forall|j: int| 0 <= j < m implies !f(#[trigger] new[j]) by {
                if j != i {
                    assert(new[j] == old[j]);
                }
            }
            lemma_first_match_at(new, f, m);
        },
        None => {
            assert forall|j: int| 0 <= j < new.len() implies !f(#[trigger] new[j]) by {
                if j != i {
                    assert(new[j] == old[j]);
                }
            }
            lemma_first_match_none(new, f);
        },
    }
}

/// `s` with every trailing copy of the non-empty `suffix` removed
/// (`str::trim_end_matches`).
pub open spec fn trim_end_all(s: Seq<char>, suffix: Seq<char>) -> Seq<char>
    decreases s.len(),
{
    if suffix.len() > 0 && suffix.len() <= s.len() && s.skip(s.len() - suffix.len()) == suffix {
        trim_end_all(s.take(s.len() - suffix.len()), suffix)
    } else {
        s
    }
}

/// The part name a `.rels` path belongs to: the path without its `_rels/`
/// segments and trailing `.rels`, made absolute.
pub open spec fn rels_part_name(rels_path: Seq<char>) -> Seq<char> {
    absolute(trim_end_all(crate::chars::replace_all(rels_path, "_rels/"@, Seq::empty()), rels_ext()))
}

/// The characters `.rels`.
pub open spec fn rels_ext() -> Seq<char> {
    seq!['.', 'r', 'e', 'l', 's']
}

/// The `.rels` path of a part: `<dir>/_rels/<file>.rels` (or
/// `_rels/<name>.rels` at the top), without a leading `/`.
pub open spec fn part_rels_path(part_name: Seq<char>) -> Seq<char> {
    let name = if part_name.len() > 0 && part_name[0] == '/' { part_name.skip(1) } else { part_name };
    match last_slash(name) {
        Some(p) => name.take(p) + "/_rels/"@ + name.skip(p + 1) + rels_ext(),
        None => "_rels/"@ + name + rels_ext(),
    }
}

/// The pattern `_rels/` as characters.
proof fn lemma_rels_dir_chars()
    ensures
        "_rels/"@.len() == 6,
        "_rels/"@[0] == '_' && "_rels/"@[1] == 'r' && "_rels/"@[2] == 'e' && "_rels/"@[3] == 'l'
            && "_rels/"@[4] == 's' && "_rels/"@[5] == '/',
        "/_rels/"@ == seq!['/'] + "_rels/"@,
{
    reveal_strlit("_rels/");
    reveal_strlit("/_rels/");
    assert("/_rels/"@ =~= seq!['/'] + "_rels/"@);
}

/// No `_rels/` begins in `f + ".rels"` where none begins in `f`: the
/// pattern ends with `/`, which `.rels` does not hold.
proof fn lemma_no_rels_dir_in_tail(f: Seq<char>)
    requires
        forall|j: int| !occurs_at(f, "_rels/"@, j),
    ensures
        forall|j: int| !occurs_at(f + rels_ext(), "_rels/"@, j),
{
    lemma_rels_dir_chars();
    let t = f + rels_ext();
    assert forall|j: int| !occurs_at(t, "_rels/"@, j) by {
        if occurs_at(t, "_rels/"@, j) {
            if j + 6 <= f.len() {
                assert(t.subrange(j, j + 6) =~= f.subrange(j, j + 6));
                assert(occurs_at(f, "_rels/"@, j));
            } else {
                assert(t.subrange(j, j + 6)[5] == t[j + 5]);
                assert(t[j + 5] == rels_ext()[j + 5 - f.len()]);
            }
        }
    }
}

/// The `.rels` path of a name with a last `/` at `p`, with `_rels/` taken
/// out, is the name with `.rels` after it.
#[verifier::rlimit(40)]
proof fn lemma_rels_dir_removed(name: Seq<char>, p: int)
    requires
        forall|j: int| !occurs_at(name, "_rels/"@, j),
        0 <= p < name.len(),
        name[p] == '/',
    ensures
        crate::chars::replace_all(name.take(p) + "/_rels/"@ + name.skip(p + 1) + rels_ext(), "_rels/"@, Seq::empty())
            == name + rels_ext(),
{
    lemma_rels_dir_chars();
    let pat = "_rels/"@;
    let e: Seq<char> = Seq::empty();
    let d = name.take(p);
    let f = name.skip(p + 1);
    let path = name.take(p) + "/_rels/"@ + name.skip(p + 1) + rels_ext();
    assert(path =~= (d + seq!['/']) + (pat + (f + rels_ext())));
    let m: int = p + 1;
    assert forall|j: int| 0 <= j < m implies !occurs_at(path, pat, j) by {
        if occurs_at(path, pat, j) {
            if j + 6 <= m {
                assert(path.subrange(j, j + 6) =~= name.subrange(j, j + 6));
                assert(occurs_at(name, pat, j));
            } else {
                assert(path.subrange(j, j + 6)[m - 1 - j] == path[m - 1]);
                assert(path[m - 1] == '/');
            }
        }
    }
    crate::placeholder::lemma_pass_skip(path, pat, e, m);
    assert(path.skip(m) =~= pat + (f + rels_ext()));
    assert(occurs_at(path.skip(m), pat, 0)) by {
        assert(path.skip(m).subrange(0, 6) =~= pat);
    }
    crate::placeholder::lemma_pass_match(path.skip(m), pat, e);
    assert(path.skip(m).skip(6) =~= f + rels_ext());
    assert forall|j: int| !occurs_at(f, pat, j) by {
        if occurs_at(f, pat, j) {
            assert(f.subrange(j, j + 6) =~= name.subrange(p + 1 + j, p + 1 + j + 6));
            assert(occurs_at(name, pat, p + 1 + j));
        }
    }
    lemma_no_rels_dir_in_tail(f);
    crate::placeholder::lemma_pass_none(f + rels_ext(), pat, e);
    assert(path.take(m) =~= d + seq!['/']);
    assert((d + seq!['/']) + (f + rels_ext()) =~= name + rels_ext());
}

/// The `.rels` path of a name with no `/`, with `_rels/` taken out, is the
/// name with `.rels` after it.
proof fn lemma_rels_top_removed(name: Seq<char>)
    requires
        forall|j: int| !occurs_at(name, "_rels/"@, j),
    ensures
        crate::chars::replace_all("_rels/"@ + name + rels_ext(), "_rels/"@, Seq::empty()) == name + rels_ext(),
{
    lemma_rels_dir_chars();
    let pat = "_rels/"@;
    let e: Seq<char> = Seq::empty();
    let path = "_rels/"@ + name + rels_ext();
    assert(occurs_at(path, pat, 0)) by {
        assert(path.subrange(0, 6) =~= pat);
    }
    crate::placeholder::lemma_pass_match(path, pat, e);
    assert(path.skip(6) =~= name + rels_ext());
    lemma_no_rels_dir_in_tail(name);
    crate::placeholder::lemma_pass_none(name + rels_ext(), pat, e);
}

/// A part name without its leading `/`, if it has one.
pub open spec fn strip_slash(n: Seq<char>) -> Seq<char> {
    if n.len() > 0 && n[0] == '/' {
        n.skip(1)
    } else {
        n
    }
}

/// Building the `.rels` path of a part and reading the part name back from
/// it gives the part name (with its leading `/`), for every name that
/// holds no `_rels/`, does not end with `.rels` and, once a leading `/` is
/// taken off, does not start with another `/`.
pub proof fn lemma_rels_path_round_trip(n: Seq<char>)
    requires
        forall|j: int| !occurs_at(strip_slash(n), "_rels/"@, j),
        !(rels_ext().len() <= strip_slash(n).len() && strip_slash(n).skip(strip_slash(n).len() - rels_ext().len())
            == rels_ext()),
        !(strip_slash(n).len() > 0 && strip_slash(n)[0] == '/'),
    ensures
        rels_part_name(part_rels_path(n)) == absolute(n),
{
    let name = strip_slash(n);
    lemma_last_slash(name);
    match last_slash(name) {
        Some(p) => {
            lemma_rels_dir_removed(name, p);
        },
        None => {
            lemma_rels_top_removed(name);
        },
    }
    let r = name + rels_ext();
    assert(r.skip(r.len() - rels_ext().len()) =~= rels_ext());
    assert(r.take(r.len() - rels_ext().len()) =~= name);
    assert(trim_end_all(r, rels_ext()) == trim_end_all(name, rels_ext()));
    assert(trim_end_all(name, rels_ext()) == name);
    if n.len() > 0 && n[0] == '/' {
        assert(n =~= seq!['/'] + name);
    }
}

/// Whether `s` ends with `suffix`.
fn ends_with_chars(s: &[char], suffix: &[char]) -> (r: bool)
    ensures
        r == (suffix@.len() <= s@.len() && s@.skip(s@.len() - suffix@.len()) == suffix@),
{
    if suffix.len() > s.len() {
        return false;
    }
    let off = s.len() - suffix.len();
    let m = crate::chars::match_at(s, suffix, off);
    proof {
        assert(s@.subrange(off as int, off + suffix@.len()) =~= s@.skip(off as int));
    }
    m
}

/// Convert a `.rels` path to the name of the part it belongs to.
pub fn rels_path_to_part_name(rels_path: &str) -> (r: String)
    ensures
        r@ == rels_part_name(rels_path@),
{
    let src = str_chars(rels_path);
    let pat = str_chars("_rels/");
    let empty: Vec<char> = Vec::new();
    let replaced = crate::chars::replace_all_chars(src.as_slice(), pat.as_slice(), empty.as_slice());
    let ext = str_chars(".rels");
    proof {
        reveal_strlit(".rels");
        assert(ext@ =~= rels_ext());
        assert(empty@ =~= Seq::<char>::empty());
    }
    let mut cur = replaced;
    while ends_with_chars(cur.as_slice(), ext.as_slice())
        invariant
            ext@ == rels_ext(),
            trim_end_all(cur@, rels_ext()) == trim_end_all(crate::chars::replace_all(rels_path@,
                "_rels/"@, Seq::empty()), rels_ext()),
        decreases cur@.len(),
    {
        let n = cur.len() - ext.len();
        cur = prefix_chars(cur.as_slice(), n);
    }
    let path = crate::chars::string_from_chars(cur.as_slice());
    make_absolute(path.as_str())
}

/// Convert a part name to the path of its `.rels` file.
pub fn part_name_to_rels_path(part_name: &str) -> (r: String)
    ensures
        r@ == part_rels_path(part_name@),
{
    let all = str_chars(part_name);
    let name = if all.len() > 0 && all[0] == '/' {
        tail_from(all.as_slice(), 1)
    } else {
        tail_from(all.as_slice(), 0)
    };
    proof { assert(all@.skip(0) =~= all@); }
    let n = name.len();
    let mut out = String::new();
    match rfind_slash(name.as_slice()) {
        Some(pos) => {
            let dir = crate::chars::string_from_chars(prefix_chars(name.as_slice(), pos).as_slice());
            let file = crate::chars::string_from_chars(tail_from(name.as_slice(), pos + 1).as_slice());
            crate::chars::push_str(&mut out, dir.as_str());
            crate::chars::push_str(&mut out, "/_rels/");
            crate::chars::push_str(&mut out, file.as_str());
            crate::chars::push_str(&mut out, ".rels");
        },
        None => {
            crate::chars::push_str(&mut out, "_rels/");
            crate::chars::push_str(&mut out, name_string(&name).as_str());
            crate::chars::push_str(&mut out, ".rels");
        },
    }
    proof {
        reveal_strlit(".rels");
        assert(".rels"@ =~= rels_ext());
        match last_slash(name@) {
            Some(p) => {
                assert(out@ =~= name@.take(p) + "/_rels/"@ + name@.skip(p + 1) + rels_ext());
            },
            None => {
                assert(out@ =~= "_rels/"@ + name@ + rels_ext());
            },
        }
    }
    out
}

/// A `String` holding the characters of `v`.
fn name_string(v: &Vec<char>) -> (r: String)
    ensures
        r@ == v@,
{
    crate::chars::string_from_chars(v.as_slice())
}

/// Errors of package handling.
#[derive(Debug)]
pub enum OpcError {
    /// A part the package needs is missing.
    PartNotFound(String),
    /// A relationship lacks its id, type or target.
    InvalidRelationship,
    /// The XML of a part could not be read.
    Xml(String),
}

/// The namespace of relationship parts.
pub const RELS_NS: &'static str = "http://schemas.openxmlformats.org/package/2006/relationships";

/// The number of an id of the form `rId<n>`.
pub fn rid_number_of(id: &str) -> (r: Option<u32>)
    ensures
        r == rid_number(id@),
{
    let digits = str_chars(id);
    if digits.len() >= 3 && digits[0] == 'r' && digits[1] == 'I' && digits[2] == 'd' {
        let tail = tail_from(digits.as_slice(), 3);
        proof {
            assert(digits@.take(3) =~= rid_prefix());
            assert(tail@ =~= id@.skip(3));
        }
        parse_u32_chars(tail.as_slice())
    } else {
        proof {
            if id@.len() >= 3 {
                assert(id@.take(3) != rid_prefix()) by {
                    if id@.take(3) == rid_prefix() {
                        assert(id@.take(3)[0] == 'r');
                    }
                }
            }
        }
        None
    }
}

/// The attributes of a relationship: id, type, target and, if set, target
/// mode.
pub open spec fn rel_attrs(r: Relationship) -> Seq<(Seq<char>, Seq<char>)> {
    seq![("Id"@, r.id@), ("Type"@, r.rel_type@), ("Target"@, r.target@)] + opt_attr("TargetMode"@, r.target_mode)
}

/// The standard declaration of a part: version 1.0, UTF-8, standalone.
pub open spec fn std_decl() -> XmlEventView {
    XmlEventView::Decl("1.0"@, Some("UTF-8"@), Some("yes"@))
}

/// The events of a relationships part: the declaration, the root element
/// in the relationships namespace, one empty element per relationship.
pub open spec fn rels_events(items: Seq<Relationship>) -> Seq<XmlEventView> {
    seq![std_decl(), XmlEventView::Start("Relationships"@, seq![("xmlns"@, RELS_NS@)])] + Seq::new(
        items.len(),
        |i: int| XmlEventView::Empty("Relationship"@, rel_attrs(items[i])),
    ) + seq![XmlEventView::End("Relationships"@)]
}

/// The standard declaration.
fn std_decl_event() -> (r: XmlEvent)
    ensures
        crate::xml::ev_view(r) == std_decl(),
{
    XmlEvent::Decl(to_owned_string("1.0"), Some(to_owned_string("UTF-8")), Some(to_owned_string("yes")))
}

/// Whether `rels` is what reading a relationship element's attributes
/// `a` gives: the last `Id`, `Type`, `Target` and `TargetMode` (exact
/// names).
pub open spec fn rel_read(r: Relationship, a: Seq<(String, String)>) -> bool {
    &&& last_exact(a, "Id"@) == Some(r.id@)
    &&& last_exact(a, "Type"@) == Some(r.rel_type@)
    &&& last_exact(a, "Target"@) == Some(r.target@)
    &&& last_exact(a, "TargetMode"@) == opt_view(r.target_mode)
}

/// One relationship from an element's attributes; an element without an
/// id, type or target is invalid.
pub fn read_relationship(t: &Tag) -> (r: Result<Relationship, OpcError>)
    ensures
        r is Ok <==> (last_exact(t.attrs@, "Id"@) is Some && last_exact(t.attrs@, "Type"@) is Some
            && last_exact(t.attrs@, "Target"@) is Some),
        r matches Ok(x) ==> rel_read(x, t.attrs@),
        r is Err ==> r == Err::<Relationship, OpcError>(OpcError::InvalidRelationship),
{
    let id = last_exact_value(&t.attrs, "Id");
    let rel_type = last_exact_value(&t.attrs, "Type");
    let target = last_exact_value(&t.attrs, "Target");
    let target_mode = last_exact_value(&t.attrs, "TargetMode");
    match (id, rel_type, target) {
        (Some(id), Some(rel_type), Some(target)) => Ok(Relationship { id, rel_type, target, target_mode }),
        _ => Err(OpcError::InvalidRelationship),
    }
}

impl Relationships {
    /// The relationships part: declaration and root element, one
    /// `Relationship` element per relationship in order, written indented
    /// as quick-xml's indenting writer does.
    pub fn to_xml(&self) -> (r: Result<Vec<u8>, OpcError>)
        ensures
            r is Ok <==> self@.len() < usize::MAX / 8,
            r matches Ok(b) ==> b@ == indented(rels_events(self@)),
    {
        if self.items.len() >= usize::MAX / 8 {
            return Err(OpcError::Xml(to_owned_string("too many relationships")));
        }
        let mut evs: Vec<XmlEvent> = Vec::new();
        evs.push(std_decl_event());
        let mut ra: Vec<(String, String)> = Vec::new();
        push_attr(&mut ra, "xmlns", to_owned_string(RELS_NS));
        proof { assert(attr_views(ra@) =~= seq![("xmlns"@, RELS_NS@)]); }
        evs.push(XmlEvent::Start(to_owned_string("Relationships"), ra));
        let ghost head = seq![std_decl(), XmlEventView::Start("Relationships"@, seq![("xmlns"@, RELS_NS@)])];
        proof { assert(ev_views(evs@) =~= head); }
        let mut i: usize = 0;
        while i < self.items.len()
            invariant
                i <= self@.len(),
                self@.len() < usize::MAX / 8,
                evs@.len() == i + 2,
                ev_views(evs@) == head + Seq::new(
                    i as nat,
                    |k: int| XmlEventView::Empty("Relationship"@, rel_attrs(self@[k])),
                ),
            decreases self@.len() - i,
        {
            let r = &self.items[i];
            let mut a: Vec<(String, String)> = Vec::new();
            push_attr(&mut a, "Id", r.id.clone());
            push_attr(&mut a, "Type", r.rel_type.clone());
            push_attr(&mut a, "Target", r.target.clone());
            proof { assert(attr_views(a@) =~= seq![("Id"@, r.id@), ("Type"@, r.rel_type@), ("Target"@, r.target@)]); }
            push_opt_attr(&mut a, "TargetMode", &r.target_mode);
            let ghost ev_before = ev_views(evs@);
            evs.push(XmlEvent::Empty(to_owned_string("Relationship"), a));
            proof {
                assert(ev_views(evs@) =~= ev_before.push(XmlEventView::Empty("Relationship"@, rel_attrs(self@[i as int]))));
                assert(ev_views(evs@) =~= head + Seq::new(
                    (i + 1) as nat,
                    |k: int| XmlEventView::Empty("Relationship"@, rel_attrs(self@[k])),
                ));
            }
            i = i + 1;
        }
        let ghost ev_before = ev_views(evs@);
        evs.push(XmlEvent::End(to_owned_string("Relationships")));
        proof {
            assert(ev_views(evs@) =~= ev_before.push(XmlEventView::End("Relationships"@)));
            assert(ev_views(evs@) =~= rels_events(self@));
        }
        Ok(write_indented(&evs))
    }

    /// Read a relationships part: every empty `Relationship` element in
    /// order; new ids are numbered after the largest `rId<n>` read. An
    /// element without an id, type or target, and an id numbered
    /// `u32::MAX` (which leaves no number after it), are errors.
    pub fn from_xml(xml: &[u8]) -> (r: Result<Self, OpcError>)
        ensures
            r matches Ok(rels) ==> rels.wf(),
            exists|res: Result<Seq<Relationship>, OpcError>|
                #[trigger] rels_run(xml@, 0, Seq::empty(), budget_for(xml_unread(xml@, true, 0)), res) && match res {
                    Ok(items) => if max_rid(items) == u32::MAX {
                        r == Err::<Relationships, OpcError>(OpcError::InvalidRelationship)
                    } else {
                        (r matches Ok(rels) && rels@ == items && rels.next_number() == max_rid(items) + 1)
                    },
                    Err(e) => r == Err::<Relationships, OpcError>(e),
                },
    {
        let mut reader = reader_from_bytes(xml, true);
        let budget = event_budget(unread_len(&reader));
        let mut fuel = budget;
        let ghost big = budget as nat;
        let mut items: Vec<Relationship> = Vec::new();
        let mut max_id: u32 = 0;
        proof { assert(items@ =~= Seq::<Relationship>::empty()); }
        while fuel > 0
            invariant_except_break
                forall|res: Result<Seq<Relationship>, OpcError>|
                    #[trigger] rels_run(xml@, reader.count(), items@, fuel as nat, res) ==> rels_run(
                        xml@,
                        0,
                        Seq::empty(),
                        big,
                        res,
                    ),
                fuel == 0 ==> rels_run(xml@, 0, Seq::empty(), big, Ok::<Seq<Relationship>, OpcError>(items@)),
            invariant
                forall|i: int| 0 <= i < items@.len() ==> (rid_number(#[trigger] items@[i].id@) matches Some(n)
                    ==> n <= max_id),
                max_id == max_rid(items@),
                fuel <= budget,
                big == budget_for(xml_unread(xml@, true, 0)),
                reader.input() == xml@,
                reader.trims(),
            ensures
                forall|i: int| 0 <= i < items@.len() ==> (rid_number(#[trigger] items@[i].id@) matches Some(n)
                    ==> n <= max_id),
                max_id == max_rid(items@),
                rels_run(xml@, 0, Seq::empty(), big, Ok::<Seq<Relationship>, OpcError>(items@)),
            decreases fuel,
        {
            let ghost n = reader.count();
            let ghost acc = items@;
            let ghost f1 = fuel as nat;
            fuel = fuel - 1;
            match read_event(&mut reader) {
                Ok(ReadEvent::Empty(t)) => {
                    if str_eq(t.name.as_str(), "Relationship") {
                        let rel = match read_relationship(&t) {
                            Ok(rel) => rel,
                            Err(e) => {
                                proof {
                                    assert(rels_run(xml@, n, acc, f1, Err::<Seq<Relationship>, OpcError>(e)));
                                }
                                return Err(e);
                            },
                        };
                        match rid_number_of(rel.id.as_str()) {
                            Some(k) => {
                                if k > max_id {
                                    max_id = k;
                                }
                            },
                            None => {},
                        }
                        let ghost gr = rel;
                        items.push(rel);
                        proof {
                            assert(items@.drop_last() =~= acc);
                            assert(rel_read(gr, t.attrs@));
                            assert forall|res: Result<Seq<Relationship>, OpcError>|
                                #[trigger] rels_run(xml@, reader.count(), items@, fuel as nat, res) implies rels_run(
                                xml@, n, acc, f1, res) by {
                                assert(items@ == acc.push(gr));
                                assert(rel_read(gr, t.attrs@));
                            }
                        }
                    } else {
                        proof {
                            assert forall|res: Result<Seq<Relationship>, OpcError>|
                                #[trigger] rels_run(xml@, reader.count(), items@, fuel as nat, res) implies rels_run(
                                xml@, n, acc, f1, res) by {}
                        }
                    }
                },
                Ok(ReadEvent::Eof) => {
                    proof { assert(rels_run(xml@, n, acc, f1, Ok::<Seq<Relationship>, OpcError>(acc))); }
                    break;
                },
                Ok(_) => {
                    proof {
                        assert forall|res: Result<Seq<Relationship>, OpcError>|
                            #[trigger] rels_run(xml@, reader.count(), items@, fuel as nat, res) implies rels_run(
                            xml@, n, acc, f1, res) by {}
                    }
                },
                Err(e) => {
                    let err = xml_error(e);
                    proof { assert(rels_run(xml@, n, acc, f1, Err::<Seq<Relationship>, OpcError>(err))); }
                    return Err(err);
                },
            }
            proof {
                if fuel == 0 {
                    assert(rels_run(xml@, reader.count(), items@, 0nat, Ok::<Seq<Relationship>, OpcError>(items@)));
                }
            }
        }
        if max_id == u32::MAX {
            return Err(OpcError::InvalidRelationship);
        }
        Ok(Relationships { items, next_id: max_id + 1 })
    }
}

/// The largest number of an `rId<n>` id among the relationships (0 when
/// there is none).
pub open spec fn max_rid(s: Seq<Relationship>) -> u32
    decreases s.len(),
{
    if s.len() == 0 {
        0
    } else {
        let m = max_rid(s.drop_last());
        match rid_number(s.last().id@) {
            Some(k) => if k > m { k } else { m },
            None => m,
        }
    }
}

/// Whether a relationship element has an id, a type and a target.
pub open spec fn rel_attrs_ok(a: Seq<(String, String)>) -> bool {
    last_exact(a, "Id"@) is Some && last_exact(a, "Type"@) is Some && last_exact(a, "Target"@) is Some
}

/// Reading a relationships part from call `n` on of a reader over `x` that
/// trims text, with the relationships `acc` read so far and `f` events
/// left, ends in `res`: each empty `Relationship` element adds what its
/// attributes read as, or fails the reading where one of them is missing;
/// the end of input or the last event allowed ends the reading, an error of
/// the reader fails it with its message, and any other event is passed.
pub open spec fn rels_run(x: Seq<u8>, n: nat, acc: Seq<Relationship>, f: nat, res: Result<Seq<Relationship>, OpcError>) -> bool
    decreases f,
{
    if f == 0 {
        res == Ok::<Seq<Relationship>, OpcError>(acc)
    } else {
        let g = (f - 1) as nat;
        match xml_event(x, true, n) {
            Ok(ReadEvent::Empty(t)) => if t.name@ == "Relationship"@ {
                if rel_attrs_ok(t.attrs@) {
                    exists|r: Relationship| #[trigger] rel_read(r, t.attrs@) && rels_run(x, n + 1, acc.push(r), g, res)
                } else {
                    res == Err::<Seq<Relationship>, OpcError>(OpcError::InvalidRelationship)
                }
            } else {
                rels_run(x, n + 1, acc, g, res)
            },
            Ok(ReadEvent::Eof) => res == Ok::<Seq<Relationship>, OpcError>(acc),
            Ok(_) => rels_run(x, n + 1, acc, g, res),
            Err(e) => (res matches Err(OpcError::Xml(m)) && m@ == oxml_message(e)),
        }
    }
}

/// The message an XML error carries.
pub open spec fn oxml_message(e: crate::error::OxmlError) -> Seq<char> {
    match e {
        crate::error::OxmlError::UnexpectedElement(m) => m@,
        crate::error::OxmlError::MissingElement(m) => m@,
        crate::error::OxmlError::InvalidValue(m) => m@,
        crate::error::OxmlError::Xml(m) => m@,
        crate::error::OxmlError::ParseInt(m) => m@,
    }
}

/// The package error for an XML error: an XML error with its message.
pub fn xml_error(e: crate::error::OxmlError) -> (r: OpcError)
    ensures
        r matches OpcError::Xml(m) && m@ == oxml_message(e),
{
    match e {
        crate::error::OxmlError::UnexpectedElement(m) => OpcError::Xml(m),
        crate::error::OxmlError::MissingElement(m) => OpcError::Xml(m),
        crate::error::OxmlError::InvalidValue(m) => OpcError::Xml(m),
        crate::error::OxmlError::Xml(m) => OpcError::Xml(m),
        crate::error::OxmlError::ParseInt(m) => OpcError::Xml(m),
    }
}

/// The namespace of the content types part.
pub const CT_NS: &'static str = "http://schemas.openxmlformats.org/package/2006/content-types";

/// The events of the content types part: the declaration, the root
/// element, a `Default` per extension, an `Override` per part.
pub open spec fn ct_events(c: ContentTypes) -> Seq<XmlEventView> {
    seq![std_decl(), XmlEventView::Start("Types"@, seq![("xmlns"@, CT_NS@)])] + Seq::new(
        c.defaults@.len(),
        |i: int| XmlEventView::Empty(
            "Default"@,
            seq![("Extension"@, c.defaults@[i].0@), ("ContentType"@, c.defaults@[i].1@)],
        ),
    ) + Seq::new(
        c.overrides@.len(),
        |i: int| XmlEventView::Empty(
            "Override"@,
            seq![("PartName"@, c.overrides@[i].0@), ("ContentType"@, c.overrides@[i].1@)],
        ),
    ) + seq![XmlEventView::End("Types"@)]
}

/// Append one empty element with two attributes per entry.
fn push_entry_events(
    evs: &mut Vec<XmlEvent>,
    entries: &Vec<(String, String)>,
    tag: &str,
    k1: &str,
    k2: &str,
)
    ensures
        ev_views(final(evs)@) == ev_views(old(evs)@) + Seq::new(
            entries@.len(),
            |i: int| XmlEventView::Empty(tag@, seq![(k1@, entries@[i].0@), (k2@, entries@[i].1@)]),
        ),
{
    let ghost start = ev_views(evs@);
    let mut i: usize = 0;
    proof {
        assert(ev_views(evs@) =~= start + Seq::new(
            0,
            |k: int| XmlEventView::Empty(tag@, seq![(k1@, entries@[k].0@), (k2@, entries@[k].1@)]),
        ));
    }
    while i < entries.len()
        invariant
            i <= entries@.len(),
            ev_views(evs@) == start + Seq::new(
                i as nat,
                |k: int| XmlEventView::Empty(tag@, seq![(k1@, entries@[k].0@), (k2@, entries@[k].1@)]),
            ),
        decreases entries@.len() - i,
    {
        let mut a: Vec<(String, String)> = Vec::new();
        push_attr(&mut a, k1, entries[i].0.clone());
        push_attr(&mut a, k2, entries[i].1.clone());
        proof { assert(attr_views(a@) =~= seq![(k1@, entries@[i as int].0@), (k2@, entries@[i as int].1@)]); }
        let ghost before = ev_views(evs@);
        evs.push(XmlEvent::Empty(to_owned_string(tag), a));
        proof {
            assert(ev_views(evs@) =~= before.push(
                XmlEventView::Empty(tag@, seq![(k1@, entries@[i as int].0@), (k2@, entries@[i as int].1@)]),
            ));
            assert(ev_views(evs@) =~= start + Seq::new(
                (i + 1) as nat,
                |k: int| XmlEventView::Empty(tag@, seq![(k1@, entries@[k].0@), (k2@, entries@[k].1@)]),
            ));
        }
        i = i + 1;
    }
}

/// What an empty element of the content types part gives: a `Default`
/// element its `(Extension, ContentType)`, an `Override` element its
/// `(PartName, ContentType)` (the last of each attribute, `true` marking a
/// default); any other element, or one lacking an attribute, nothing.
pub open spec fn ct_entry(t: Tag) -> Option<(bool, (Seq<char>, Seq<char>))> {
    let is_default = t.name@ == "Default"@;
    if is_default || t.name@ == "Override"@ {
        let key = if is_default { "Extension"@ } else { "PartName"@ };
        match (last_exact(t.attrs@, key), last_exact(t.attrs@, "ContentType"@)) {
            (Some(k), Some(c)) => Some((is_default, (k, c))),
            _ => None,
        }
    } else {
        None
    }
}

/// The entry an empty element of the content types part gives, if any.
pub fn content_type_entry(t: &Tag) -> (r: Option<(bool, (String, String))>)
    ensures
        match r {
            Some((d, (k, c))) => ct_entry(*t) == Some((d, (k@, c@))),
            None => ct_entry(*t) is None,
        },
{
    let is_default = str_eq(t.name.as_str(), "Default");
    if is_default || str_eq(t.name.as_str(), "Override") {
        let key = last_exact_value(&t.attrs, if is_default { "Extension" } else { "PartName" });
        let ct = last_exact_value(&t.attrs, "ContentType");
        match (key, ct) {
            (Some(k), Some(c)) => Some((is_default, (k, c))),
            _ => None,
        }
    } else {
        None
    }
}

impl ContentTypes {
    /// The content types part, written indented as quick-xml's indenting
    /// writer does.
    pub fn to_xml(&self) -> (r: Result<Vec<u8>, OpcError>)
        ensures
            r is Ok <==> self.defaults@.len() < usize::MAX / 16 && self.overrides@.len() < usize::MAX / 16,
            r matches Ok(b) ==> b@ == indented(ct_events(*self)),
    {
        if self.defaults.len() >= usize::MAX / 16 || self.overrides.len() >= usize::MAX / 16 {
            return Err(OpcError::Xml(to_owned_string("too many content types")));
        }
        let mut evs: Vec<XmlEvent> = Vec::new();
        evs.push(std_decl_event());
        let mut ra: Vec<(String, String)> = Vec::new();
        push_attr(&mut ra, "xmlns", to_owned_string(CT_NS));
        proof { assert(attr_views(ra@) =~= seq![("xmlns"@, CT_NS@)]); }
        evs.push(XmlEvent::Start(to_owned_string("Types"), ra));
        push_entry_events(&mut evs, &self.defaults, "Default", "Extension", "ContentType");
        push_entry_events(&mut evs, &self.overrides, "Override", "PartName", "ContentType");
        let ghost before = ev_views(evs@);
        evs.push(XmlEvent::End(to_owned_string("Types")));
        proof {
            assert(ev_views(evs@) =~= before.push(XmlEventView::End("Types"@)));
            assert(ev_views(evs@) =~= ct_events(*self));
        }
        Ok(write_indented(&evs))
    }

    /// Read the content types part: each empty `Default` element with an
    /// `Extension` and a `ContentType`, and each empty `Override` element
    /// with a `PartName` and a `ContentType` (the last of each attribute);
    /// elements lacking one are skipped.
    pub fn from_xml(xml: &[u8]) -> (r: Result<Self, OpcError>)
        ensures
            match ct_run(xml@, 0, Seq::empty(), Seq::empty(), budget_for(xml_unread(xml@, true, 0))) {
                Ok((d, o)) => (r matches Ok(ct) && pairs_view(ct.defaults@) == d && pairs_view(ct.overrides@) == o),
                Err(m) => (r matches Err(OpcError::Xml(mm)) && mm@ == m),
            },
    {
        let mut reader = reader_from_bytes(xml, true);
        let budget = event_budget(unread_len(&reader));
        let ghost goal = ct_run(xml@, 0, Seq::empty(), Seq::empty(), budget as nat);
        let mut fuel = budget;
        let mut defaults: Vec<(String, String)> = Vec::new();
        let mut overrides: Vec<(String, String)> = Vec::new();
        proof {
            assert(pairs_view(defaults@) =~= Seq::<(Seq<char>, Seq<char>)>::empty());
            assert(pairs_view(overrides@) =~= Seq::<(Seq<char>, Seq<char>)>::empty());
        }
        while fuel > 0
            invariant_except_break
                ct_run(xml@, reader.count(), pairs_view(defaults@), pairs_view(overrides@), fuel as nat) == goal,
            invariant
                reader.input() == xml@,
                reader.trims(),
                goal == ct_run(xml@, 0, Seq::empty(), Seq::empty(), budget_for(xml_unread(xml@, true, 0))),
            ensures
                goal == Ok::<(Seq<(Seq<char>, Seq<char>)>, Seq<(Seq<char>, Seq<char>)>), Seq<char>>(
                    (pairs_view(defaults@), pairs_view(overrides@)),
                ),
            decreases fuel,
        {
            let ghost n = reader.count();
            let ghost f1 = fuel as nat;
            fuel = fuel - 1;
            let ghost d0 = defaults@;
            let ghost o0 = overrides@;
            match read_event(&mut reader) {
                Ok(ReadEvent::Empty(t)) => {
                    match content_type_entry(&t) {
                        Some((true, e)) => {
                            let ghost ev = (e.0@, e.1@);
                            defaults.push(e);
                            proof { assert(pairs_view(defaults@) =~= pairs_view(d0).push(ev)); }
                        },
                        Some((false, e)) => {
                            let ghost ev = (e.0@, e.1@);
                            overrides.push(e);
                            proof { assert(pairs_view(overrides@) =~= pairs_view(o0).push(ev)); }
                        },
                        None => {},
                    }
                },
                Ok(ReadEvent::Eof) => {
                    proof { assert(ct_run(xml@, n, pairs_view(d0), pairs_view(o0), f1) == Ok::<(Seq<(Seq<char>, Seq<char>)>, Seq<(Seq<char>, Seq<char>)>), Seq<char>>((pairs_view(d0), pairs_view(o0)))); }
                    break;
                },
                Ok(_) => {},
                Err(e) => {
                    proof { assert(ct_run(xml@, n, pairs_view(d0), pairs_view(o0), f1) == Err::<(Seq<(Seq<char>, Seq<char>)>, Seq<(Seq<char>, Seq<char>)>), Seq<char>>(oxml_message(e))); }
                    return Err(xml_error(e));
                },
            }
        }
        Ok(ContentTypes { defaults, overrides })
    }
}

/// The views of pairs of strings.
pub open spec fn pairs_view(v: Seq<(String, String)>) -> Seq<(Seq<char>, Seq<char>)> {
    v.map_values(|p: (String, String)| (p.0@, p.1@))
}

/// Reading the content types part from call `n` on of a reader over `x`
/// that trims text, with the defaults `d` and overrides `o` read so far
/// and `f` events left: each empty element adds the entry `ct_entry` gives
/// it, if any; the end of input or the last event allowed ends the
/// reading; an error of the reader fails it with its message.
pub open spec fn ct_run(
    x: Seq<u8>,
    n: nat,
    d: Seq<(Seq<char>, Seq<char>)>,
    o: Seq<(Seq<char>, Seq<char>)>,
    f: nat,
) -> Result<(Seq<(Seq<char>, Seq<char>)>, Seq<(Seq<char>, Seq<char>)>), Seq<char>>
    decreases f,
{
    if f == 0 {
        Ok((d, o))
    } else {
        let g = (f - 1) as nat;
        match xml_event(x, true, n) {
            Ok(ReadEvent::Empty(t)) => match ct_entry(t) {
                Some((true, e)) => ct_run(x, n + 1, d.push(e), o, g),
                Some((false, e)) => ct_run(x, n + 1, d, o.push(e), g),
                None => ct_run(x, n + 1, d, o, g),
            },
            Ok(ReadEvent::Eof) => Ok((d, o)),
            Ok(_) => ct_run(x, n + 1, d, o, g),
            Err(e) => Err(oxml_message(e)),
        }
    }
}

/// Whether `s` ends with `suffix`.
pub open spec fn ends_with(s: Seq<char>, suffix: Seq<char>) -> bool {
    suffix.len() <= s.len() && s.skip(s.len() - suffix.len()) == suffix
}

/// Whether an archive entry is one of the package's own files: the content
/// types or a relationships part.
pub open spec fn is_package_file(n: Seq<char>) -> bool {
    n == "[Content_Types].xml"@ || n == "_rels/.rels"@ || ends_with(n, rels_ext())
}

/// A part name with its leading `/`.
pub open spec fn with_slash(n: Seq<char>) -> Seq<char> {
    if n.len() > 0 && n[0] == '/' {
        n
    } else {
        seq!['/'] + n
    }
}

/// The parts of a package read from archive entries: every entry but the
/// package's own files, named with a leading `/`, in order.
pub open spec fn entry_parts(raw: Seq<(String, Vec<u8>)>) -> Seq<(Seq<char>, Seq<u8>)>
    decreases raw.len(),
{
    if raw.len() == 0 {
        Seq::empty()
    } else if is_package_file(raw.last().0@) {
        entry_parts(raw.drop_last())
    } else {
        entry_parts(raw.drop_last()).push((with_slash(raw.last().0@), raw.last().1@))
    }
}

/// The index of the last entry named `name`.
pub open spec fn last_entry(raw: Seq<(String, Vec<u8>)>, name: Seq<char>) -> Option<int>
    decreases raw.len(),
{
    if raw.len() == 0 {
        None
    } else if raw.last().0@ == name {
        Some(raw.len() - 1)
    } else {
        last_entry(raw.drop_last(), name)
    }
}

/// The values of named parts.
pub open spec fn parts_view(p: Seq<(String, Vec<u8>)>) -> Seq<(Seq<char>, Seq<u8>)> {
    Seq::new(p.len(), |i: int| (p[i].0@, p[i].1@))
}

/// The index of the last entry named `name`.
fn find_last_entry(raw: &Vec<(String, Vec<u8>)>, name: &str) -> (r: Option<usize>)
    ensures
        match r {
            Some(i) => last_entry(raw@, name@) == Some(i as int) && i < raw@.len(),
            None => last_entry(raw@, name@) is None,
        },
{
    let mut k: usize = raw.len();
    proof { assert(raw@.take(k as int) =~= raw@); }
    while k > 0
        invariant
            k <= raw@.len(),
            last_entry(raw@, name@) == last_entry(raw@.take(k as int), name@),
        decreases k,
    {
        proof {
            assert(raw@.take(k as int).drop_last() =~= raw@.take(k - 1));
            assert(raw@.take(k as int).last() == raw@[k - 1]);
        }
        if str_eq(raw[k - 1].0.as_str(), name) {
            return Some(k - 1);
        }
        k = k - 1;
    }
    None
}

impl OpcPackage {
    /// A package from the entries of its archive (name, bytes): the content
    /// types from `[Content_Types].xml` (which must be there), the package
    /// relationships from `_rels/.rels` (none without it), each other
    /// `.rels` entry as the relationships of the part it belongs to, and
    /// every other entry as a part named with a leading `/`. Where a name
    /// occurs twice, its last entry counts for the package files.
    pub fn from_parts(raw: &Vec<(String, Vec<u8>)>) -> (r: Result<Self, OpcError>)
        ensures
            last_entry(raw@, "[Content_Types].xml"@) is None ==> r matches Err(OpcError::PartNotFound(_)),
            r matches Ok(p) ==> parts_view(p.parts@) == entry_parts(raw@),
    {
        let content_types = match find_last_entry(raw, "[Content_Types].xml") {
            Some(i) => ContentTypes::from_xml(raw[i].1.as_slice())?,
            None => {
                return Err(OpcError::PartNotFound(to_owned_string("[Content_Types].xml")));
            },
        };
        let package_rels = match find_last_entry(raw, "_rels/.rels") {
            Some(i) => Relationships::from_xml(raw[i].1.as_slice())?,
            None => Relationships::new(),
        };
        let ext = str_chars(".rels");
        proof { reveal_strlit(".rels"); assert(ext@ =~= rels_ext()); }
        let mut part_rels: Vec<(String, Relationships)> = Vec::new();
        let mut parts: Vec<(String, Vec<u8>)> = Vec::new();
        let mut i: usize = 0;
        proof { assert(raw@.take(0) =~= Seq::<(String, Vec<u8>)>::empty()); }
        while i < raw.len()
            invariant
                i <= raw@.len(),
                ext@ == rels_ext(),
                last_entry(raw@, "[Content_Types].xml"@) is Some,
                parts_view(parts@) == entry_parts(raw@.take(i as int)),
            decreases raw@.len() - i,
        {
            proof {
                assert(raw@.take(i + 1).drop_last() =~= raw@.take(i as int));
                assert(raw@.take(i + 1).last() == raw@[i as int]);
            }
            let name = raw[i].0.as_str();
            let cs = str_chars(name);
            let is_rels = ends_with_chars(cs.as_slice(), ext.as_slice());
            let is_ct = str_eq(name, "[Content_Types].xml");
            let is_pkg_rels = str_eq(name, "_rels/.rels");
            if is_rels && !is_pkg_rels {
                let rels = Relationships::from_xml(raw[i].1.as_slice())?;
                part_rels.push((rels_path_to_part_name(name), rels));
            }
            if !(is_ct || is_pkg_rels || is_rels) {
                let normalized = if cs.len() > 0 && cs[0] == '/' {
                    to_owned_string(name)
                } else {
                    let mut n = to_owned_string("/");
                    crate::chars::push_str(&mut n, name);
                    proof { reveal_strlit("/"); }
                    n
                };
                proof { assert(normalized@ =~= with_slash(raw@[i as int].0@)); }
                let ghost before = parts_view(parts@);
                parts.push((normalized, raw[i].1.clone()));
                proof {
                    assert(parts_view(parts@) =~= before.push((with_slash(raw@[i as int].0@), raw@[i as int].1@)));
                }
            }
            i = i + 1;
        }
        proof { assert(raw@.take(i as int) =~= raw@); }
        Ok(OpcPackage { content_types, package_rels, part_rels, parts })
    }

    /// The archive entries of the package, in the order they are written:
    /// `[Content_Types].xml`, `_rels/.rels`, each part's relationships at
    /// its `.rels` path, then every part under its name without the leading
    /// `/`. It fails exactly where one of the XML parts is too large to
    /// write (`ContentTypes::to_xml`, `Relationships::to_xml`).
    pub fn to_entries(&self) -> (r: Result<Vec<(String, Vec<u8>)>, OpcError>)
        ensures
            r is Ok <==> entries_fit(*self),
            r matches Ok(v) ==> v@.len() == 2 + self.part_rels@.len() + self.parts@.len() && v@[0].0@
                == "[Content_Types].xml"@ && v@[0].1@ == indented(ct_events(self.content_types)) && v@[1].0@
                == "_rels/.rels"@ && v@[1].1@ == indented(rels_events(self.package_rels@)) && (forall|k: int|
                0 <= k < self.part_rels@.len() ==> #[trigger] v@[2 + k].0@ == part_rels_path(self.part_rels@[k].0@)
                    && v@[2 + k].1@ == indented(rels_events(self.part_rels@[k].1@)))
                && (forall|k: int|
                0 <= k < self.parts@.len() ==> {
                    let e = #[trigger] v@[2 + self.part_rels@.len() + k];
                    let n = self.parts@[k].0@;
                    &&& e.0@ == (if n.len() > 0 && n[0] == '/' { n.skip(1) } else { n })
                    &&& e.1@ == self.parts@[k].1@
                }),
    {
        let mut out: Vec<(String, Vec<u8>)> = Vec::new();
        let ct = match self.content_types.to_xml() {
            Ok(b) => b,
            Err(e) => {
                return Err(e);
            },
        };
        out.push((to_owned_string("[Content_Types].xml"), ct));
        let pr = match self.package_rels.to_xml() {
            Ok(b) => b,
            Err(e) => {
                return Err(e);
            },
        };
        out.push((to_owned_string("_rels/.rels"), pr));
        let mut i: usize = 0;
        while i < self.part_rels.len()
            invariant
                i <= self.part_rels@.len(),
                out@.len() == 2 + i,
                out@[0].0@ == "[Content_Types].xml"@,
                out@[0].1@ == indented(ct_events(self.content_types)),
                out@[1].0@ == "_rels/.rels"@,
                out@[1].1@ == indented(rels_events(self.package_rels@)),
                forall|k: int| 0 <= k < i ==> #[trigger] self.part_rels@[k].1@.len() < usize::MAX / 8,
                forall|k: int|
                    0 <= k < i ==> rels_entry(#[trigger] out@[2 + k], self.part_rels@[k]),
            decreases self.part_rels@.len() - i,
        {
            let path = part_name_to_rels_path(self.part_rels[i].0.as_str());
            let xml = match self.part_rels[i].1.to_xml() {
                Ok(b) => b,
                Err(e) => {
                    return Err(e);
                },
            };
            let ghost before = out@;
            out.push((path, xml));
            proof {
                assert forall|k: int| 0 <= k < i + 1 implies rels_entry(#[trigger] out@[2 + k], self.part_rels@[k]) by {
                    if k < i {
                        assert(out@[2 + k] == before[2 + k]);
                    } else {
                        assert(out@[2 + k].0@ == part_rels_path(self.part_rels@[k].0@));
                        assert(out@[2 + k].1@ == indented(rels_events(self.part_rels@[k].1@)));
                    }
                }
            }
            i = i + 1;
        }
        let mut j: usize = 0;
        while j < self.parts.len()
            invariant
                j <= self.parts@.len(),
                out@.len() == 2 + self.part_rels@.len() + j,
                out@[0].0@ == "[Content_Types].xml"@,
                out@[0].1@ == indented(ct_events(self.content_types)),
                out@[1].0@ == "_rels/.rels"@,
                out@[1].1@ == indented(rels_events(self.package_rels@)),
                forall|k: int| 0 <= k < self.part_rels@.len() ==> #[trigger] self.part_rels@[k].1@.len() < usize::MAX / 8,
                forall|k: int|
                    0 <= k < self.part_rels@.len() ==> rels_entry(#[trigger] out@[2 + k], self.part_rels@[k]),
                forall|k: int|
                    0 <= k < j ==> {
                        let e = #[trigger] out@[2 + self.part_rels@.len() + k];
                        let n = self.parts@[k].0@;
                        &&& e.0@ == (if n.len() > 0 && n[0] == '/' { n.skip(1) } else { n })
                        &&& e.1@ == self.parts@[k].1@
                    },
            decreases self.parts@.len() - j,
        {
            let cs = str_chars(self.parts[j].0.as_str());
            let name = if cs.len() > 0 && cs[0] == '/' {
                crate::chars::string_from_chars(tail_from(cs.as_slice(), 1).as_slice())
            } else {
                to_owned_string(self.parts[j].0.as_str())
            };
            let ghost before = out@;
            out.push((name, self.parts[j].1.clone()));
            proof {
                assert forall|k: int| 0 <= k < self.part_rels@.len() implies rels_entry(#[trigger] out@[2 + k], self.part_rels@[k]) by {
                    assert(out@[2 + k] == before[2 + k]);
                }
            }
            j = j + 1;
        }
        Ok(out)
    }
}

/// An archive entry holding the relationships of a part: its `.rels`
/// path and the relationships part written.
pub open spec fn rels_entry(e: (String, Vec<u8>), p: (String, Relationships)) -> bool {
    e.0@ == part_rels_path(p.0@) && e.1@ == indented(rels_events(p.1@))
}

/// Whether every XML part of the package is small enough to write: the
/// content types (`ContentTypes::to_xml`) and each relationships part
/// (`Relationships::to_xml`).
pub open spec fn entries_fit(p: OpcPackage) -> bool {
    &&& p.content_types.defaults@.len() < usize::MAX / 16
    &&& p.content_types.overrides@.len() < usize::MAX / 16
    &&& p.package_rels@.len() < usize::MAX / 8
    &&& forall|k: int| 0 <= k < p.part_rels@.len() ==> #[trigger] p.part_rels@[k].1@.len() < usize::MAX / 8
}

} // verus!

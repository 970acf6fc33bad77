//! List numbering definitions: `CT_Numbering`, `CT_AbstractNum`, `CT_Lvl`, `CT_Num`.

use vstd::prelude::*;

use crate::chars::{push_char, to_owned_string};
use crate::properties::{CT_PPr, CT_RPr};

verus! {

/// Number format of a list level (`w:numFmt`).
#[derive(Debug, Clone, Copy, PartialEq, Eq, Structural)]
pub enum ST_NumberFormat {
    Decimal,
    UpperRoman,
    LowerRoman,
    UpperLetter,
    LowerLetter,
    Ordinal,
    Bullet,
    /// No number is shown (`none`).
    NoNumber,
}

/// One level of an abstract numbering definition (`w:lvl`).
#[derive(Debug, PartialEq)]
pub struct CT_Lvl {
    /// Level index 0..=8 (`w:ilvl`)
    pub ilvl: u32,
    /// Starting value (`w:start`)
    pub start: Option<u32>,
    /// Number format (`w:numFmt`)
    pub num_fmt: Option<ST_NumberFormat>,
    /// Level text template such as "%1." (`w:lvlText`)
    pub lvl_text: Option<String>,
    /// Paragraph properties of the level (indents)
    pub ppr: Option<CT_PPr>,
    /// Run properties of the marker
    pub rpr: Option<CT_RPr>,
}

/// An abstract numbering definition (`w:abstractNum`).
#[derive(Debug, PartialEq)]
pub struct CT_AbstractNum {
    pub abstract_num_id: u32,
    pub levels: Vec<CT_Lvl>,
}

/// A numbering instance pointing at an abstract definition (`w:num`).
#[derive(Debug, Clone, PartialEq)]
pub struct CT_Num {
    pub num_id: u32,
    pub abstract_num_id: u32,
}

/// The numbering part (`word/numbering.xml`).
#[derive(Debug, PartialEq)]
pub struct CT_Numbering {
    pub abstract_nums: Vec<CT_AbstractNum>,
    pub nums: Vec<CT_Num>,
}

/// Index of the first numbering instance with the given id.
pub open spec fn first_num(nums: Seq<CT_Num>, num_id: u32) -> Option<int>
    decreases nums.len(),
{
    if nums.len() == 0 {
        None
    } else if nums[0].num_id == num_id {
        Some(0)
    } else {
        match first_num(nums.drop_first(), num_id) {
            Some(i) => Some(i + 1),
            None => None,
        }
    }
}

/// Index of the first abstract definition with the given id.
pub open spec fn first_abstract(a: Seq<CT_AbstractNum>, id: u32) -> Option<int>
    decreases a.len(),
{
    if a.len() == 0 {
        None
    } else if a[0].abstract_num_id == id {
        Some(0)
    } else {
        match first_abstract(a.drop_first(), id) {
            Some(i) => Some(i + 1),
            None => None,
        }
    }
}

/// Index of the first level with the given level index.
pub open spec fn first_level(l: Seq<CT_Lvl>, ilvl: u32) -> Option<int>
    decreases l.len(),
{
    if l.len() == 0 {
        None
    } else if l[0].ilvl == ilvl {
        Some(0)
    } else {
        match first_level(l.drop_first(), ilvl) {
            Some(i) => Some(i + 1),
            None => None,
        }
    }
}

/// The abstract definition a numbering instance uses: the first abstract
/// definition whose id is that of the first instance with `num_id`.
pub open spec fn abstract_for(n: CT_Numbering, num_id: u32) -> Option<int> {
    match first_num(n.nums@, num_id) {
        Some(i) => first_abstract(n.abstract_nums@, n.nums@[i].abstract_num_id),
        None => None,
    }
}

/// `first_num` names the first matching position.
pub proof fn lemma_first_num(nums: Seq<CT_Num>, num_id: u32)
    ensures
        first_num(nums, num_id) matches Some(i) ==> 0 <= i < nums.len() && nums[i].num_id == num_id
            && forall|j: int| 0 <= j < i ==> nums[j].num_id != num_id,
        first_num(nums, num_id) is None ==> forall|j: int| 0 <= j < nums.len() ==> nums[j].num_id != num_id,
    decreases nums.len(),
{
    if nums.len() > 0 {
        lemma_first_num(nums.drop_first(), num_id);
        assert forall|j: int| 1 <= j < nums.len() implies nums[j] == nums.drop_first()[j - 1] by {}
    }
}

/// `first_abstract` names the first matching position.
pub proof fn lemma_first_abstract(a: Seq<CT_AbstractNum>, id: u32)
    ensures
        first_abstract(a, id) matches Some(i) ==> 0 <= i < a.len() && a[i].abstract_num_id == id
            && forall|j: int| 0 <= j < i ==> a[j].abstract_num_id != id,
        first_abstract(a, id) is None ==> forall|j: int| 0 <= j < a.len() ==> a[j].abstract_num_id != id,
    decreases a.len(),
{
    if a.len() > 0 {
        lemma_first_abstract(a.drop_first(), id);
        assert forall|j: int| 1 <= j < a.len() implies a[j] == a.drop_first()[j - 1] by {}
    }
}

/// `first_level` names the first matching position.
pub proof fn lemma_first_level(l: Seq<CT_Lvl>, ilvl: u32)
    ensures
        first_level(l, ilvl) matches Some(i) ==> 0 <= i < l.len() && l[i].ilvl == ilvl
            && forall|j: int| 0 <= j < i ==> l[j].ilvl != ilvl,
        first_level(l, ilvl) is None ==> forall|j: int| 0 <= j < l.len() ==> l[j].ilvl != ilvl,
    decreases l.len(),
{
    if l.len() > 0 {
        lemma_first_level(l.drop_first(), ilvl);
        assert forall|j: int| 1 <= j < l.len() implies l[j] == l.drop_first()[j - 1] by {}
    }
}

/// Position of the first level with index `ilvl`.
pub fn find_level(levels: &Vec<CT_Lvl>, ilvl: u32) -> (r: Option<usize>)
    ensures
        r matches Some(i) ==> first_level(levels@, ilvl) == Some(i as int),
        r is None ==> first_level(levels@, ilvl) is None,
{
    proof { lemma_first_level(levels@, ilvl); }
    let mut i: usize = 0;
    while i < levels.len()
        invariant
            i <= levels@.len(),
            forall|j: int| 0 <= j < i ==> levels@[j].ilvl != ilvl,
            first_level(levels@, ilvl) matches Some(k) ==> i <= k,
        decreases levels@.len() - i,
    {
        proof { lemma_first_level(levels@, ilvl); }
        if levels[i].ilvl == ilvl {
            return Some(i);
        }
        i = i + 1;
    }
    proof { lemma_first_level(levels@, ilvl); }
    None
}

/// Position of the first numbering instance with id `num_id`.
pub fn find_num(nums: &Vec<CT_Num>, num_id: u32) -> (r: Option<usize>)
    ensures
        r matches Some(i) ==> first_num(nums@, num_id) == Some(i as int),
        r is None ==> first_num(nums@, num_id) is None,
{
    proof { lemma_first_num(nums@, num_id); }
    let mut i: usize = 0;
    while i < nums.len()
        invariant
            i <= nums@.len(),
            forall|j: int| 0 <= j < i ==> nums@[j].num_id != num_id,
            first_num(nums@, num_id) matches Some(k) ==> i <= k,
        decreases nums@.len() - i,
    {
        proof { lemma_first_num(nums@, num_id); }
        if nums[i].num_id == num_id {
            return Some(i);
        }
        i = i + 1;
    }
    proof { lemma_first_num(nums@, num_id); }
    None
}

/// Position of the first abstract definition with id `id`.
pub fn find_abstract(a: &Vec<CT_AbstractNum>, id: u32) -> (r: Option<usize>)
    ensures
        r matches Some(i) ==> first_abstract(a@, id) == Some(i as int),
        r is None ==> first_abstract(a@, id) is None,
{
    proof { lemma_first_abstract(a@, id); }
    let mut i: usize = 0;
    while i < a.len()
        invariant
            i <= a@.len(),
            forall|j: int| 0 <= j < i ==> a@[j].abstract_num_id != id,
            first_abstract(a@, id) matches Some(k) ==> i <= k,
        decreases a@.len() - i,
    {
        proof { lemma_first_abstract(a@, id); }
        if a[i].abstract_num_id == id {
            return Some(i);
        }
        i = i + 1;
    }
    proof { lemma_first_abstract(a@, id); }
    None
}

/// The number format of a level, decimal when unset.
pub open spec fn level_format(l: CT_Lvl) -> ST_NumberFormat {
    match l.num_fmt {
        Some(f) => f,
        None => ST_NumberFormat::Decimal,
    }
}

/// The starting value of a level, 1 when unset.
pub open spec fn level_start(l: CT_Lvl) -> u32 {
    match l.start {
        Some(s) => s,
        None => 1,
    }
}

/// A numbered list's level `i`: decimal, lower letter and lower roman in turn,
/// text "%(i+1).".
pub open spec fn numbered_format(i: int) -> ST_NumberFormat {
    if i % 3 == 0 {
        ST_NumberFormat::Decimal
    } else if i % 3 == 1 {
        ST_NumberFormat::LowerLetter
    } else {
        ST_NumberFormat::LowerRoman
    }
}

impl CT_Numbering {
    /// An empty numbering part.
    pub fn new() -> (r: Self)
        ensures
            r.abstract_nums@.len() == 0,
            r.nums@.len() == 0,
    {
        CT_Numbering { abstract_nums: Vec::new(), nums: Vec::new() }
    }

    /// Position of the abstract definition used by `num_id`.
    pub fn abstract_index_for(&self, num_id: u32) -> (r: Option<usize>)
        ensures
            r matches Some(i) ==> abstract_for(*self, num_id) == Some(i as int),
            r is None ==> abstract_for(*self, num_id) is None,
    {
        proof { lemma_first_num(self.nums@, num_id); }
        match find_num(&self.nums, num_id) {
            Some(i) => find_abstract(&self.abstract_nums, self.nums[i].abstract_num_id),
            None => None,
        }
    }

    /// The abstract definition used by `num_id`, if any.
    pub fn get_abstract_num_for(&self, num_id: u32) -> (r: Option<&CT_AbstractNum>)
        ensures
            r matches Some(a) ==> abstract_for(*self, num_id) matches Some(i) && *a == self.abstract_nums@[i],
            r is None ==> abstract_for(*self, num_id) is None,
    {
        match self.abstract_index_for(num_id) {
            Some(i) => {
                proof { lemma_first_abstract(self.abstract_nums@, self.nums@[first_num(self.nums@, num_id)->0].abstract_num_id); lemma_first_num(self.nums@, num_id); }
                Some(&self.abstract_nums[i])
            },
            None => None,
        }
    }

    /// The next free numbering-instance id: one more than the largest in use
    /// (1 when there is none).
    fn next_num_id(&self) -> (r: u32)
        requires
            forall|j: int| 0 <= j < self.nums@.len() ==> self.nums@[j].num_id < u32::MAX,
        ensures
            forall|j: int| 0 <= j < self.nums@.len() ==> self.nums@[j].num_id < r,
            r >= 1,
    {
        let mut m: u32 = 0;
        let mut i: usize = 0;
        while i < self.nums.len()
            invariant
                i <= self.nums@.len(),
                forall|j: int| 0 <= j < self.nums@.len() ==> self.nums@[j].num_id < u32::MAX,
                forall|j: int| 0 <= j < i ==> self.nums@[j].num_id <= m,
            decreases self.nums@.len() - i,
        {
            if self.nums[i].num_id > m {
                m = self.nums[i].num_id;
            }
            i = i + 1;
        }
        if m == u32::MAX { m } else { m + 1 }
    }

    /// The next free abstract-definition id.
    fn next_abstract_id(&self) -> (r: u32)
        requires
            forall|j: int| 0 <= j < self.abstract_nums@.len()
                ==> self.abstract_nums@[j].abstract_num_id < u32::MAX,
        ensures
            forall|j: int| 0 <= j < self.abstract_nums@.len() ==> self.abstract_nums@[j].abstract_num_id < r,
    {
        let mut m: u32 = 0;
        let mut i: usize = 0;
        while i < self.abstract_nums.len()
            invariant
                i <= self.abstract_nums@.len(),
                forall|j: int| 0 <= j < self.abstract_nums@.len()
                    ==> self.abstract_nums@[j].abstract_num_id < u32::MAX,
                forall|j: int| 0 <= j < i ==> self.abstract_nums@[j].abstract_num_id <= m,
            decreases self.abstract_nums@.len() - i,
        {
            if self.abstract_nums[i].abstract_num_id > m {
                m = self.abstract_nums[i].abstract_num_id;
            }
            i = i + 1;
        }
        if m == u32::MAX { m } else { m + 1 }
    }

    /// Adds an abstract definition with the given levels and an instance of
    /// it; returns the new instance's id.
    fn add_list(&mut self, levels: Vec<CT_Lvl>) -> (r: u32)
        requires
            forall|j: int| 0 <= j < old(self).nums@.len() ==> old(self).nums@[j].num_id < u32::MAX,
            forall|j: int| 0 <= j < old(self).abstract_nums@.len()
                ==> old(self).abstract_nums@[j].abstract_num_id < u32::MAX,
        ensures
            abstract_for(*final(self), r) == Some(old(self).abstract_nums@.len() as int),
            final(self).abstract_nums@.last().levels@ == levels@,
            final(self).abstract_nums@.len() == old(self).abstract_nums@.len() + 1,
            forall|j: int| 0 <= j < old(self).abstract_nums@.len()
                ==> final(self).abstract_nums@[j] == old(self).abstract_nums@[j],
    {
        let num_id = self.next_num_id();
        let aid = self.next_abstract_id();
        self.abstract_nums.push(CT_AbstractNum { abstract_num_id: aid, levels });
        self.nums.push(CT_Num { num_id, abstract_num_id: aid });
        proof {
            lemma_first_num(self.nums@, num_id);
            lemma_first_abstract(self.abstract_nums@, aid);
            assert(self.nums@[self.nums@.len() - 1].num_id == num_id);
            assert(self.abstract_nums@[self.abstract_nums@.len() - 1].abstract_num_id == aid);
        }
        num_id
    }

    /// Adds a nine-level numbered list (levels cycle decimal, lower letter,
    /// lower roman; level `i` reads "%(i+1)."), returning its numbering id.
    pub fn add_numbered_list(&mut self) -> (r: u32)
        requires
            forall|j: int| 0 <= j < old(self).nums@.len() ==> old(self).nums@[j].num_id < u32::MAX,
            forall|j: int| 0 <= j < old(self).abstract_nums@.len()
                ==> old(self).abstract_nums@[j].abstract_num_id < u32::MAX,
        ensures
            abstract_for(*final(self), r) matches Some(a) && ({
                let lv = final(self).abstract_nums@[a].levels@;
                &&& lv.len() == 9
                &&& forall|i: int| 0 <= i < 9 ==> lv[i].ilvl == i && lv[i].start == Some(1u32)
                    && lv[i].num_fmt == Some(numbered_format(i))
                    && (lv[i].lvl_text matches Some(t) && t@ == seq!['%', crate::chars::digit_char((i + 1) as nat), '.'])
                    && lv[i].rpr is None && lv[i].ppr is None
            }),
    {
        let mut levels: Vec<CT_Lvl> = Vec::new();
        let mut i: u32 = 0;
        while i < 9
            invariant
                i <= 9,
                levels@.len() == i,
                forall|k: int| 0 <= k < i ==> levels@[k].ilvl == k && levels@[k].start == Some(1u32)
                    && levels@[k].num_fmt == Some(numbered_format(k))
                    && (levels@[k].lvl_text matches Some(t) && t@ == seq!['%', crate::chars::digit_char((k + 1) as nat), '.'])
                    && levels@[k].rpr is None && levels@[k].ppr is None,
            decreases 9 - i,
        {
            let fmt = if i % 3 == 0 {
                ST_NumberFormat::Decimal
            } else if i % 3 == 1 {
                ST_NumberFormat::LowerLetter
            } else {
                ST_NumberFormat::LowerRoman
            };
            let mut text = String::new();
            push_char(&mut text, '%');
            push_char(&mut text, crate::chars::digit_to_char((i + 1) as u64));
            push_char(&mut text, '.');
            proof { assert(text@ =~= seq!['%', crate::chars::digit_char((i + 1) as nat), '.']); }
            levels.push(CT_Lvl {
                ilvl: i,
                start: Some(1),
                num_fmt: Some(fmt),
                lvl_text: Some(text),
                ppr: None,
                rpr: None,
            });
            i = i + 1;
        }
        self.add_list(levels)
    }

    /// Adds a nine-level bullet list (bullets "\u{2022}", "o", "\u{25AA}" in
    /// turn), returning its numbering id.
    pub fn add_bullet_list(&mut self) -> (r: u32)
        requires
            forall|j: int| 0 <= j < old(self).nums@.len() ==> old(self).nums@[j].num_id < u32::MAX,
            forall|j: int| 0 <= j < old(self).abstract_nums@.len()
                ==> old(self).abstract_nums@[j].abstract_num_id < u32::MAX,
        ensures
            abstract_for(*final(self), r) matches Some(a) && ({
                let lv = final(self).abstract_nums@[a].levels@;
                &&& lv.len() == 9
                &&& forall|i: int| 0 <= i < 9 ==> lv[i].ilvl == i && lv[i].start == Some(1u32)
                    && lv[i].num_fmt == Some(ST_NumberFormat::Bullet)
                    && (lv[i].lvl_text matches Some(t) && t@ == seq![bullet_char(i)])
                    && lv[i].rpr is None && lv[i].ppr is None
            }),
    {
        let mut levels: Vec<CT_Lvl> = Vec::new();
        let mut i: u32 = 0;
        while i < 9
            invariant
                i <= 9,
                levels@.len() == i,
                forall|k: int| 0 <= k < i ==> levels@[k].ilvl == k && levels@[k].start == Some(1u32)
                    && levels@[k].num_fmt == Some(ST_NumberFormat::Bullet)
                    && (levels@[k].lvl_text matches Some(t) && t@ == seq![bullet_char(k)])
                    && levels@[k].rpr is None && levels@[k].ppr is None,
            decreases 9 - i,
        {
            let c = if i % 3 == 0 { '\u{2022}' } else if i % 3 == 1 { 'o' } else { '\u{25AA}' };
            let mut text = String::new();
            push_char(&mut text, c);
            proof { assert(text@ =~= seq![bullet_char(i as int)]); }
            levels.push(CT_Lvl {
                ilvl: i,
                start: Some(1),
                num_fmt: Some(ST_NumberFormat::Bullet),
                lvl_text: Some(text),
                ppr: None,
                rpr: None,
            });
            i = i + 1;
        }
        self.add_list(levels)
    }
}

/// The bullet of level `i` of a bullet list.
pub open spec fn bullet_char(i: int) -> char {
    if i % 3 == 0 { '\u{2022}' } else if i % 3 == 1 { 'o' } else { '\u{25AA}' }
}

} // verus!

//! The merge index: for each fingerprint, the sets of pages that the kernel
//! has found to hold the same bytes.

use crate::error::ErrorKind;
use crate::page::PageEntry;
use std::collections::HashMap;
use vstd::prelude::*;

verus! {

broadcast use vstd::std_specs::hash::group_hash_axioms;

/// What the kernel reports of one page that is present.
#[derive(Debug, Clone, Copy, PartialEq, Eq, Structural)]
pub struct UKSMPagemapEntry {
    /// The page frame number.
    pub pfn: u64,
    /// The fingerprint of the page's bytes.
    pub crc: u32,
    /// Whether the page is part of a transparent huge page.
    pub is_thp: bool,
    /// Whether the kernel holds the page in its merged pool.
    pub is_ksm: bool,
}

/// A page of a process.
#[derive(Debug, Clone, Copy, PartialEq, Eq, Structural)]
pub struct PidAddr {
    pub pid: u64,
    pub addr: u64,
}

/// The classes of one fingerprint, in the order in which they were made;
/// the pages of a class stand in the order in which they joined it.
pub type Classes = Seq<Seq<PidAddr>>;

/// The views of the classes of a list.
pub open spec fn lists(classes: Vec<Vec<PidAddr>>) -> Classes {
    Seq::new(classes@.len(), |k: int| classes@[k]@)
}

/// The pages of all classes, class after class: the order in which the
/// kernel is asked about them.
pub open spec fn members(classes: Classes) -> Seq<PidAddr>
    decreases classes.len(),
{
    if classes.len() == 0 {
        Seq::empty()
    } else {
        members(classes.drop_last()) + classes.last()
    }
}

/// The index of the class that holds the page which stands at the index `at`
/// of `members`.
pub open spec fn class_of(classes: Classes, at: int) -> int
    decreases classes.len(),
{
    if classes.len() == 0 || at >= members(classes.drop_last()).len() {
        classes.len() - 1
    } else {
        class_of(classes.drop_last(), at)
    }
}

/// The index of the first answer that is `true`; the number of answers
/// where none is.
pub open spec fn first_yes(verdicts: Seq<bool>) -> int
    decreases verdicts.len(),
{
    if verdicts.len() == 0 {
        0
    } else if verdicts[0] {
        0
    } else {
        1 + first_yes(verdicts.skip(1))
    }
}

/// The class without the page `page`.
pub open spec fn without(class: Seq<PidAddr>, page: PidAddr) -> Seq<PidAddr>
    decreases class.len(),
{
    if class.len() == 0 {
        class
    } else if class.last() == page {
        without(class.drop_last(), page)
    } else {
        without(class.drop_last(), page).push(class.last())
    }
}

/// The index of the first class that holds `page`; the number of classes
/// where none does.
pub open spec fn first_class_with(classes: Classes, page: PidAddr) -> int
    decreases classes.len(),
{
    if classes.len() == 0 {
        0
    } else if classes[0].contains(page) {
        0
    } else {
        1 + first_class_with(classes.skip(1), page)
    }
}

/// The merge index as a value: the classes of each fingerprint.
pub type Index = Map<u32, Classes>;

/// What adding `page` under the fingerprint `crc` does to the index, given
/// the answers that the kernel has given so far to the question whether
/// `page` holds the same bytes as a page of the index.  The pages of the
/// fingerprint are asked about in the order of `members`, and `verdicts[i]`
/// answers for the page at the index `i`.
///
/// - Where the index has no class for the fingerprint, the page becomes
///   the only page of a first class.
/// - Where an answer is `true`, the page joins the class of the first page
///   with such an answer.
/// - Where all pages have answered `false`, the page becomes the only page
///   of a new class after the others.
/// - Else the index stays as it is, and the second part of the result is
///   the page that the kernel is to be asked about next.
pub open spec fn added(index: Index, page: PidAddr, crc: u32, verdicts: Seq<bool>) -> (
    Index,
    Option<PidAddr>,
) {
    if !index.contains_key(crc) {
        (index.insert(crc, seq![seq![page]]), None)
    } else {
        let classes = index[crc];
        let asked = members(classes);
        let yes = first_yes(verdicts);
        if yes < verdicts.len() && yes < asked.len() {
            let k = class_of(classes, yes);
            (index.insert(crc, classes.update(k, classes[k].push(page))), None)
        } else if verdicts.len() >= asked.len() {
            (index.insert(crc, classes.push(seq![page])), None)
        } else {
            (index, Some(asked[verdicts.len() as int]))
        }
    }
}

/// What removing `page` from under the fingerprint `crc` does to the
/// index: the first class that holds the page loses it; a class that is
/// left empty goes, and so does a fingerprint that is left without a class.
pub open spec fn removed(index: Index, page: PidAddr, crc: u32) -> Index {
    if !index.contains_key(crc) {
        index
    } else {
        let classes = index[crc];
        let k = first_class_with(classes, page);
        if k >= classes.len() {
            index
        } else {
            let rest = without(classes[k], page);
            if rest.len() > 0 {
                index.insert(crc, classes.update(k, rest))
            } else if classes.len() > 1 {
                index.insert(crc, classes.remove(k))
            } else {
                index.remove(crc)
            }
        }
    }
}

/// Whether the index holds `page` under the fingerprint `crc`.
pub open spec fn holds(index: Index, page: PidAddr, crc: u32) -> bool {
    index.contains_key(crc) && exists|k: int|
        0 <= k < index[crc].len() && (#[trigger] index[crc][k]).contains(page)
}

/// No fingerprint is without a class, and no class is empty.
pub open spec fn no_empty(index: Index) -> bool {
    forall|crc: u32| #[trigger]
        index.contains_key(crc) ==> {
            &&& index[crc].len() > 0
            &&& forall|k: int| 0 <= k < index[crc].len() ==> (#[trigger] index[crc][k]).len() > 0
        }
}

/// The merge index.
#[derive(Debug)]
pub struct Uksm {
    pages: HashMap<u32, Vec<Vec<PidAddr>>>,
}

impl View for Uksm {
    type V = Index;

    closed spec fn view(&self) -> Index {
        Map::new(|crc: u32| self.pages@.contains_key(crc), |crc: u32| lists(self.pages@[crc]))
    }
}

impl Uksm {
    /// No fingerprint is without a class, and no class is empty.
    pub open spec fn wf(&self) -> bool {
        no_empty(self@)
    }

    /// An index that holds nothing.
    pub fn new() -> (index: Self)
        ensures
            index@ == Map::<u32, Classes>::empty(),
            index.wf(),
    {
        let index = Self { pages: HashMap::new() };
        assert(index@ =~= Map::<u32, Classes>::empty());
        index
    }

    /// Adds the page `addr` of the process `pid`, whose fingerprint is that
    /// of `entry`, as far as the answers of the kernel allow.
    ///
    /// `verdicts` holds the answers that the kernel has given so far to the
    /// question whether the page holds the same bytes as a page of the
    /// index, and has been merged with it.  Where another answer is
    /// needed, the index stays as it is and the result is the page to ask
    /// about: the caller asks the kernel, appends the answer to `verdicts`
    /// and calls again.  Where the result is `None`, the page is in the
    /// index.
    pub fn add(&mut self, pid: u64, addr: u64, entry: &PageEntry, verdicts: &[bool]) -> (ask:
        Option<PidAddr>)
        requires
            old(self).wf(),
        ensures
            (final(self)@, ask) == added(old(self)@, PidAddr { pid, addr }, entry.crc, verdicts@),
            final(self).wf(),
    {
        let page = PidAddr { pid, addr };
        let crc = entry.crc;
        let ghost before = self@;
        let mut classes = match self.pages.remove(&crc) {
            Some(classes) => classes,
            None => {
                let mut class: Vec<PidAddr> = Vec::new();
                class.push(page);
                let mut classes: Vec<Vec<PidAddr>> = Vec::new();
                classes.push(class);
                self.pages.insert(crc, classes);
                proof {
                    assert(lists(classes) =~= seq![seq![page]]);
                    assert(self@ =~= before.insert(crc, seq![seq![page]]));
                }
                return None;
            },
        };
        assert(lists(classes) == before[crc]);
        let ghost all = lists(classes);
        let mut at: usize = 0;
        let mut k: usize = 0;
        let mut place: Option<usize> = None;
        let mut ask: Option<PidAddr> = None;
        while k < classes.len() && place.is_none() && ask.is_none()
            invariant
                k <= classes@.len(),
                lists(classes) == all,
                place is None || ask is None,
                place is None && ask is None ==> {
                    &&& at == members(all.take(k as int)).len()
                    &&& at <= verdicts@.len()
                    &&& forall|j: int| 0 <= j < at ==> !verdicts@[j]
                },
                place matches Some(p) ==> {
                    &&& p < all.len()
                    &&& first_yes(verdicts@) < verdicts@.len()
                    &&& first_yes(verdicts@) < members(all).len()
                    &&& class_of(all, first_yes(verdicts@)) == p
                },
                ask matches Some(m) ==> {
                    &&& first_yes(verdicts@) == verdicts@.len()
                    &&& verdicts@.len() < members(all).len()
                    &&& m == members(all)[verdicts@.len() as int]
                },
            decreases classes@.len() - k, if place is None && ask is None { 1int } else { 0int },
        {
            let class = &classes[k];
            let mut i: usize = 0;
            assert(all[k as int] == class@);
            while i < class.len() && place.is_none() && ask.is_none()
                invariant
                    k < all.len(),
                    i <= class@.len(),
                    all[k as int] == class@,
                    place is None || ask is None,
                    place is None && ask is None ==> {
                        &&& at == members(all.take(k as int)).len() + i
                        &&& at <= verdicts@.len()
                        &&& forall|j: int| 0 <= j < at ==> !verdicts@[j]
                    },
                    place matches Some(p) ==> {
                        &&& p < all.len()
                        &&& first_yes(verdicts@) < verdicts@.len()
                        &&& first_yes(verdicts@) < members(all).len()
                        &&& class_of(all, first_yes(verdicts@)) == p
                    },
                    ask matches Some(m) ==> {
                        &&& first_yes(verdicts@) == verdicts@.len()
                        &&& verdicts@.len() < members(all).len()
                        &&& m == members(all)[verdicts@.len() as int]
                    },
                decreases class@.len() - i, if place is None && ask is None { 1int } else { 0int },
            {
                proof {
                    lemma_member_at(all, k as int, i as int);
                    lemma_first_yes(verdicts@, at as int);
                }
                if at >= verdicts.len() {
                    ask = Some(class[i]);
                } else if verdicts[at] {
                    place = Some(k);
                } else {
                    at += 1;
                    i += 1;
                }
            }
            if place.is_none() && ask.is_none() {
                proof {
                    lemma_members_take(all, k as int);
                }
                k += 1;
            }
        }
        match place {
            Some(p) => {
                let mut class = classes.remove(p);
                class.push(page);
                classes.insert(p, class);
                proof {
                    assert(lists(classes) =~= all.update(p as int, all[p as int].push(page)));
                }
            },
            None => {
                if ask.is_none() {
                    let mut class: Vec<PidAddr> = Vec::new();
                    class.push(page);
                    classes.push(class);
                    proof {
                        assert(all.take(k as int) =~= all);
                        lemma_first_yes(verdicts@, at as int);
                        assert(lists(classes) =~= all.push(seq![page]));
                    }
                }
            },
        }
        self.pages.insert(crc, classes);
        proof {
            let after = added(before, page, crc, verdicts@).0;
            assert(self@ =~= after);
            assert(no_empty(self@)) by {
                assert forall|c: u32| #[trigger] self@.contains_key(c) implies {
                    &&& self@[c].len() > 0
                    &&& forall|k: int| 0 <= k < self@[c].len() ==> (#[trigger] self@[c][k]).len() > 0
                } by {
                    if c != crc {
                        assert(before.contains_key(c));
                    } else {
                        assert(before.contains_key(crc));
                    }
                }
            }
        }
        ask
    }

    /// Removes the page `addr` of the process `pid` from under the
    /// fingerprint `crc`.  Returns whether the index held the page there.
    pub fn remove(&mut self, pid: u64, addr: u64, crc: u32) -> (found: bool)
        requires
            old(self).wf(),
        ensures
            final(self)@ == removed(old(self)@, PidAddr { pid, addr }, crc),
            found == holds(old(self)@, PidAddr { pid, addr }, crc),
            final(self).wf(),
    {
        let page = PidAddr { pid, addr };
        let ghost before = self@;
        let mut classes = match self.pages.remove(&crc) {
            Some(classes) => classes,
            None => {
                assert(self@ =~= before);
                return false;
            },
        };
        let ghost all = lists(classes);
        assert(all == before[crc]);
        let mut k: usize = 0;
        let mut found = false;
        while k < classes.len() && !found
            invariant
                k <= classes@.len(),
                lists(classes) == all,
                forall|j: int| 0 <= j < k ==> !(#[trigger] all[j]).contains(page),
                found ==> k < all.len() && all[k as int].contains(page),
            decreases classes@.len() - k, if found { 0int } else { 1int },
        {
            assert(all[k as int] == classes@[k as int]@);
            if class_contains(&classes[k], page) {
                found = true;
            } else {
                k += 1;
            }
        }
        proof {
            lemma_first_class_with(all, page, k as int);
        }
        if !found {
            self.pages.insert(crc, classes);
            assert(lists(classes) == all);
            assert(self@ =~= before);
            return false;
        }
        let class = classes.remove(k);
        assert(class@ == all[k as int]);
        let rest = class_without(&class, page);
        if rest.len() > 0 {
            classes.insert(k, rest);
            assert(lists(classes) =~= all.update(k as int, without(all[k as int], page)));
            self.pages.insert(crc, classes);
        } else if classes.len() > 0 {
            assert(lists(classes) =~= all.remove(k as int));
            self.pages.insert(crc, classes);
        }
        proof {
            assert(self@ =~= removed(before, page, crc));
            assert(no_empty(self@)) by {
                assert forall|c: u32| #[trigger] self@.contains_key(c) implies {
                    &&& self@[c].len() > 0
                    &&& forall|j: int| 0 <= j < self@[c].len() ==> (#[trigger] self@[c][j]).len() > 0
                } by {
                    assert(before.contains_key(c));
                    if c == crc {
                        assert forall|j: int| 0 <= j < self@[c].len() implies (
                        #[trigger] self@[c][j]).len() > 0 by {
                            if rest@.len() > 0 {
                                if j != k {
                                    assert(self@[c][j] == all[j]);
                                }
                            } else {
                                if j < k {
                                    assert(self@[c][j] == all[j]);
                                } else {
                                    assert(self@[c][j] == all[j + 1]);
                                }
                            }
                        }
                    }
                }
            }
        }
        true
    }

    /// Takes the page `addr` of the process `pid` out of the index once the
    /// kernel has taken it out of its merged set.  `released` is how the
    /// kernel answered the order to do so: where it failed, the index stays
    /// as it is and the failure is handed on.
    pub fn unmerge(
        &mut self,
        pid: u64,
        addr: u64,
        entry: &PageEntry,
        released: Result<(), ErrorKind>,
    ) -> (r: Result<(), ErrorKind>)
        requires
            old(self).wf(),
        ensures
            r == released,
            final(self)@ == match released {
                Ok(()) => removed(old(self)@, PidAddr { pid, addr }, entry.crc),
                Err(_) => old(self)@,
            },
            final(self).wf(),
    {
        if released.is_ok() {
            self.remove(pid, addr, entry.crc);
        }
        released
    }

    /// The classes of a fingerprint; none where the index does not hold
    /// the fingerprint.
    pub fn classes(&self, crc: u32) -> (classes: Vec<Vec<PidAddr>>)
        ensures
            lists(classes) == if self@.contains_key(crc) {
                self@[crc]
            } else {
                Seq::empty()
            },
    {
        let mut out: Vec<Vec<PidAddr>> = Vec::new();
        match self.pages.get(&crc) {
            Some(classes) => {
                let mut k: usize = 0;
                while k < classes.len()
                    invariant
                        k <= classes@.len(),
                        lists(out) == lists(*classes).take(k as int),
                    decreases classes@.len() - k,
                {
                    let class = &classes[k];
                    let mut copy: Vec<PidAddr> = Vec::new();
                    let mut i: usize = 0;
                    while i < class.len()
                        invariant
                            i <= class@.len(),
                            copy@ == class@.take(i as int),
                        decreases class@.len() - i,
                    {
                        copy.push(class[i]);
                        assert(class@.take(i + 1) =~= class@.take(i as int).push(class@[i as int]));
                        i += 1;
                    }
                    assert(class@.take(i as int) =~= class@);
                    let ghost done = lists(out);
                    out.push(copy);
                    proof {
                        let all = lists(*classes);
                        assert(all[k as int] == class@);
                        assert(lists(out) =~= done.push(class@));
                        assert(all.take(k + 1) =~= all.take(k as int).push(all[k as int]));
                    }
                    k += 1;
                }
                assert(lists(*classes).take(k as int) =~= lists(*classes));
            },
            None => {
                assert(lists(out) =~= Seq::<Seq<PidAddr>>::empty());
            },
        }
        out
    }

    /// How many fingerprints the index holds.
    pub fn len(&self) -> (n: usize)
        ensures
            n == self@.dom().len(),
    {
        assert(self@.dom() =~= self.pages@.dom());
        self.pages.len()
    }
}

/// Tests whether a class holds a page.
pub fn class_contains(class: &Vec<PidAddr>, page: PidAddr) -> (r: bool)
    ensures
        r == class@.contains(page),
{
    let mut i: usize = 0;
    while i < class.len()
        invariant
            i <= class@.len(),
            forall|j: int| 0 <= j < i ==> class@[j] != page,
        decreases class@.len() - i,
    {
        if class[i].pid == page.pid && class[i].addr == page.addr {
            return true;
        }
        i += 1;
    }
    false
}

/// The pages of a class but `page`, in their order.
pub fn class_without(class: &Vec<PidAddr>, page: PidAddr) -> (rest: Vec<PidAddr>)
    ensures
        rest@ == without(class@, page),
{
    let mut rest: Vec<PidAddr> = Vec::new();
    let mut i: usize = 0;
    while i < class.len()
        invariant
            i <= class@.len(),
            rest@ == without(class@.take(i as int), page),
        decreases class@.len() - i,
    {
        assert(class@.take(i + 1).drop_last() =~= class@.take(i as int));
        if !(class[i].pid == page.pid && class[i].addr == page.addr) {
            rest.push(class[i]);
        }
        i += 1;
    }
    assert(class@.take(i as int) =~= class@);
    rest
}

/// What a run of classes without `page` says of the first class with it.
pub proof fn lemma_first_class_with(classes: Classes, page: PidAddr, k: int)
    requires
        0 <= k <= classes.len(),
        forall|j: int| 0 <= j < k ==> !(#[trigger] classes[j]).contains(page),
    ensures
        k <= first_class_with(classes, page) <= classes.len(),
        k < classes.len() && classes[k].contains(page) ==> first_class_with(classes, page) == k,
    decreases classes.len(),
{
    if classes.len() > 0 && !classes[0].contains(page) {
        let rest = classes.skip(1);
        if k > 0 {
            assert forall|j: int| 0 <= j < k - 1 implies !(#[trigger] rest[j]).contains(page) by {
                assert(rest[j] == classes[j + 1]);
            }
            lemma_first_class_with(rest, page, k - 1);
            if k < classes.len() {
                assert(rest[k - 1] == classes[k]);
            }
        } else {
            lemma_first_class_with(rest, page, 0);
        }
    }
}

/// What a run of `false` answers says of the first `true` one.
pub proof fn lemma_first_yes(verdicts: Seq<bool>, at: int)
    requires
        0 <= at <= verdicts.len(),
        forall|j: int| 0 <= j < at ==> !verdicts[j],
    ensures
        at <= first_yes(verdicts) <= verdicts.len(),
        at < verdicts.len() && verdicts[at] ==> first_yes(verdicts) == at,
    decreases verdicts.len(),
{
    if verdicts.len() > 0 && !verdicts[0] {
        let rest = verdicts.skip(1);
        if at > 0 {
            assert forall|j: int| 0 <= j < at - 1 implies !rest[j] by {
                assert(rest[j] == verdicts[j + 1]);
            }
            lemma_first_yes(rest, at - 1);
            if at < verdicts.len() {
                assert(rest[at - 1] == verdicts[at]);
            }
        } else {
            lemma_first_yes(rest, 0);
        }
    }
}

/// The pages of the first `k + 1` classes are those of the first `k` and
/// then those of the class with the index `k`.
pub proof fn lemma_members_take(classes: Classes, k: int)
    requires
        0 <= k < classes.len(),
    ensures
        members(classes.take(k + 1)) == members(classes.take(k)) + classes[k],
{
    assert(classes.take(k + 1).drop_last() =~= classes.take(k));
}

/// Where the page with the index `i` of the class with the index `k` stands
/// among all pages.
pub proof fn lemma_member_at(classes: Classes, k: int, i: int)
    requires
        0 <= k < classes.len(),
        0 <= i < classes[k].len(),
    ensures
        ({
            let at = members(classes.take(k)).len() + i;
            &&& at < members(classes).len()
            &&& members(classes)[at] == classes[k][i]
            &&& class_of(classes, at) == k
        }),
    decreases classes.len(),
{
    let front = classes.drop_last();
    if k == classes.len() - 1 {
        assert(classes.take(k) =~= front);
    } else {
        lemma_member_at(front, k, i);
        assert(front.take(k) =~= classes.take(k));
    }
}

} // verus!

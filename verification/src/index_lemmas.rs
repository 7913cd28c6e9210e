//! What adding and removing do to the pages that the merge index holds.

use crate::uksm::{
    added, class_of, first_class_with, holds, members, no_empty, removed, without, Classes, Index,
    PidAddr,
};
use vstd::prelude::*;

verus! {

/// No page stands twice in a class, and no page stands in two classes.
pub open spec fn distinct_classes(classes: Classes) -> bool {
    &&& forall|k: int| 0 <= k < classes.len() ==> (#[trigger] classes[k]).no_duplicates()
    &&& forall|k: int, j: int, page: PidAddr|
        0 <= k < classes.len() && 0 <= j < classes.len() && k != j && #[trigger] classes[k].contains(
            page,
        ) ==> !#[trigger] classes[j].contains(page)
}

/// Under no fingerprint does a page stand twice.
pub open spec fn distinct(index: Index) -> bool {
    forall|crc: u32| #[trigger] index.contains_key(crc) ==> distinct_classes(index[crc])
}

/// Whether one of the classes holds the page.
pub open spec fn listed(classes: Classes, page: PidAddr) -> bool {
    exists|k: int| 0 <= k < classes.len() && (#[trigger] classes[k]).contains(page)
}

/// A class without a page holds the other pages of the class, and no page
/// twice if the class held none twice.
pub proof fn lemma_without(class: Seq<PidAddr>, page: PidAddr)
    ensures
        forall|q: PidAddr| #[trigger]
            without(class, page).contains(q) <==> class.contains(q) && q != page,
        class.no_duplicates() ==> without(class, page).no_duplicates(),
        without(class, page).len() <= class.len(),
        !class.contains(page) ==> without(class, page) == class,
    decreases class.len(),
{
    if class.len() > 0 {
        let front = class.drop_last();
        let last = class.last();
        lemma_without(front, page);
        let rest = without(front, page);
        assert forall|q: PidAddr| #[trigger]
            without(class, page).contains(q) <==> class.contains(q) && q != page by {
            if class.contains(q) {
                let i = choose|i: int| 0 <= i < class.len() && class[i] == q;
                if i < front.len() {
                    assert(front[i] == q);
                }
            }
            if front.contains(q) {
                let i = choose|i: int| 0 <= i < front.len() && front[i] == q;
                assert(class[i] == q);
            }
            if last != page {
                let out = rest.push(last);
                assert(out[rest.len() as int] == last);
                if rest.contains(q) {
                    let i = choose|i: int| 0 <= i < rest.len() && rest[i] == q;
                    assert(out[i] == q);
                }
                if out.contains(q) {
                    let i = choose|i: int| 0 <= i < out.len() && out[i] == q;
                    if i < rest.len() {
                        assert(rest[i] == q);
                    }
                }
            }
            assert(class[class.len() - 1] == last);
        }
        if class.no_duplicates() {
            assert(front.no_duplicates());
            if last != page {
                assert(!front.contains(last)) by {
                    if front.contains(last) {
                        let i = choose|i: int| 0 <= i < front.len() && front[i] == last;
                        assert(class[i] == class[class.len() - 1]);
                    }
                }
                assert(!rest.contains(last));
                let out = rest.push(last);
                assert forall|i: int, j: int| 0 <= i < out.len() && 0 <= j < out.len() && i != j implies out[i]
                    != out[j] by {
                    if i < rest.len() && j < rest.len() {
                    } else if i < rest.len() {
                        assert(rest.contains(rest[i]));
                    } else {
                        assert(rest.contains(rest[j]));
                    }
                }
            }
        }
        if !class.contains(page) {
            assert(!front.contains(page)) by {
                if front.contains(page) {
                    let i = choose|i: int| 0 <= i < front.len() && front[i] == page;
                    assert(class[i] == page);
                }
            }
            assert(class[class.len() - 1] == last);
            assert(without(class, page) =~= class);
        }
    }
}

/// The class of a page that stands among the pages of all classes is one of
/// the classes.
pub proof fn lemma_class_of(classes: Classes, at: int)
    requires
        0 <= at < members(classes).len(),
    ensures
        0 <= class_of(classes, at) < classes.len(),
    decreases classes.len(),
{
    if classes.len() > 0 && at < members(classes.drop_last()).len() {
        lemma_class_of(classes.drop_last(), at);
    }
}

/// What the index of the first class with a page says of the classes.
pub proof fn lemma_first_class(classes: Classes, page: PidAddr)
    ensures
        0 <= first_class_with(classes, page) <= classes.len(),
        first_class_with(classes, page) < classes.len() ==> classes[first_class_with(
            classes,
            page,
        )].contains(page),
        first_class_with(classes, page) == classes.len() ==> !listed(classes, page),
    decreases classes.len(),
{
    if classes.len() > 0 && !classes[0].contains(page) {
        let rest = classes.skip(1);
        lemma_first_class(rest, page);
        let k = first_class_with(rest, page);
        if k < rest.len() {
            assert(rest[k] == classes[k + 1]);
        } else {
            if listed(classes, page) {
                let j = choose|j: int| 0 <= j < classes.len() && (#[trigger] classes[j]).contains(page);
                assert(rest[j - 1] == classes[j]);
                assert(listed(rest, page));
            }
        }
    }
}

/// What adding a page does to the pages that the classes of its
/// fingerprint hold, where the page joins the class `k`.
pub proof fn lemma_joined(classes: Classes, k: int, page: PidAddr)
    requires
        0 <= k < classes.len(),
    ensures
        forall|q: PidAddr|
            #![trigger listed(classes.update(k, classes[k].push(page)), q)]
            #![trigger listed(classes, q)]
            listed(classes.update(k, classes[k].push(page)), q) <==> listed(classes, q) || q == page,
        distinct_classes(classes) && !listed(classes, page) ==> distinct_classes(
            classes.update(k, classes[k].push(page)),
        ),
{
    let grown = classes[k].push(page);
    let after = classes.update(k, grown);
    assert(grown[classes[k].len() as int] == page);
    assert forall|q: PidAddr| grown.contains(q) <==> classes[k].contains(q) || q == page by {
        if classes[k].contains(q) {
            let i = choose|i: int| 0 <= i < classes[k].len() && classes[k][i] == q;
            assert(grown[i] == q);
        }
        if grown.contains(q) {
            let i = choose|i: int| 0 <= i < grown.len() && grown[i] == q;
            if i < classes[k].len() {
                assert(classes[k][i] == q);
            }
        }
    }
    assert forall|q: PidAddr| listed(after, q) <==> listed(classes, q) || q == page by {
        if listed(after, q) {
            let j = choose|j: int| 0 <= j < after.len() && (#[trigger] after[j]).contains(q);
            if j != k {
                assert(classes[j].contains(q));
            } else if q != page {
                assert(classes[k].contains(q));
            }
        }
        if listed(classes, q) {
            let j = choose|j: int| 0 <= j < classes.len() && (#[trigger] classes[j]).contains(q);
            assert(after[j].contains(q));
        }
        if q == page {
            assert(after[k].contains(q));
        }
    }
    if distinct_classes(classes) && !listed(classes, page) {
        assert forall|j: int| 0 <= j < after.len() implies (#[trigger] after[j]).no_duplicates() by {
            if j == k {
                assert(classes[k].no_duplicates());
                assert(!classes[k].contains(page));
                assert forall|a: int, b: int|
                    0 <= a < grown.len() && 0 <= b < grown.len() && a != b implies grown[a]
                    != grown[b] by {
                    if a < classes[k].len() && b < classes[k].len() {
                    } else if a < classes[k].len() {
                        assert(classes[k].contains(classes[k][a]));
                    } else {
                        assert(classes[k].contains(classes[k][b]));
                    }
                }
            } else {
                assert(classes[j].no_duplicates());
            }
        }
        assert forall|i: int, j: int, q: PidAddr|
            0 <= i < after.len() && 0 <= j < after.len() && i != j && #[trigger] after[i].contains(q) implies !#[trigger] after[j].contains(q) by {
            if i == k {
                if q == page {
                    assert(!classes[j].contains(q));
                } else {
                    assert(classes[i].contains(q));
                    assert(!classes[j].contains(q));
                }
            } else if j == k {
                assert(classes[i].contains(q));
                assert(!classes[j].contains(q));
            } else {
                assert(classes[i].contains(q));
                assert(!classes[j].contains(q));
            }
        }
    }
}

/// What adding a page does to the pages that the classes of its
/// fingerprint hold, where the page makes a class of its own.
pub proof fn lemma_founded(classes: Classes, page: PidAddr)
    ensures
        forall|q: PidAddr|
            #![trigger listed(classes.push(seq![page]), q)]
            #![trigger listed(classes, q)]
            listed(classes.push(seq![page]), q) <==> listed(classes, q) || q == page,
        distinct_classes(classes) && !listed(classes, page) ==> distinct_classes(
            classes.push(seq![page]),
        ),
{
    let alone = seq![page];
    let after = classes.push(alone);
    assert(alone[0] == page);
    assert forall|q: PidAddr| listed(after, q) <==> listed(classes, q) || q == page by {
        if listed(after, q) {
            let j = choose|j: int| 0 <= j < after.len() && (#[trigger] after[j]).contains(q);
            if j < classes.len() {
                assert(classes[j].contains(q));
            }
        }
        if listed(classes, q) {
            let j = choose|j: int| 0 <= j < classes.len() && (#[trigger] classes[j]).contains(q);
            assert(after[j].contains(q));
        }
        if q == page {
            assert(after[classes.len() as int].contains(q));
        }
    }
    if distinct_classes(classes) && !listed(classes, page) {
        assert forall|j: int| 0 <= j < after.len() implies (#[trigger] after[j]).no_duplicates() by {
            if j < classes.len() {
                assert(classes[j].no_duplicates());
            }
        }
        assert forall|i: int, j: int, q: PidAddr|
            0 <= i < after.len() && 0 <= j < after.len() && i != j && #[trigger] after[i].contains(q) implies !#[trigger] after[j].contains(q) by {
            if i < classes.len() && j < classes.len() {
                assert(classes[i].contains(q));
                assert(!classes[j].contains(q));
            } else if i < classes.len() {
                assert(classes[i].contains(q));
            } else {
                assert(q == page);
                assert(!classes[j].contains(q));
            }
        }
    }
}

/// What adding does to the index, once the page is in.
pub proof fn lemma_added(index: Index, page: PidAddr, crc: u32, verdicts: Seq<bool>)
    requires
        added(index, page, crc, verdicts).1 is None,
    ensures
        forall|q: PidAddr, c: u32|
            #![trigger holds(added(index, page, crc, verdicts).0, q, c)]
            #![trigger holds(index, q, c)]
            holds(added(index, page, crc, verdicts).0, q, c) <==> holds(index, q, c) || (q == page
                && c == crc),
        no_empty(index) ==> no_empty(added(index, page, crc, verdicts).0),
        distinct(index) && !holds(index, page, crc) ==> distinct(
            added(index, page, crc, verdicts).0,
        ),
{
    let after = added(index, page, crc, verdicts).0;
    if !index.contains_key(crc) {
        let alone = seq![seq![page]];
        lemma_founded(Seq::empty(), page);
        assert(alone =~= Seq::<Seq<PidAddr>>::empty().push(seq![page]));
        assert forall|q: PidAddr, c: u32|
            holds(after, q, c) <==> holds(index, q, c) || (q == page && c == crc) by {
            lemma_holds_listed(after, q, c);
            lemma_holds_listed(index, q, c);
            if c == crc {
                assert(!listed(Seq::<Seq<PidAddr>>::empty(), q));
            }
        }
        assert(no_empty(index) ==> no_empty(after)) by {
            if no_empty(index) {
                assert forall|c: u32| #[trigger] after.contains_key(c) implies {
                    &&& after[c].len() > 0
                    &&& forall|k: int| 0 <= k < after[c].len() ==> (#[trigger] after[c][k]).len() > 0
                } by {
                    if c != crc {
                        assert(index.contains_key(c));
                    }
                }
            }
        }
        if distinct(index) {
            assert(distinct_classes(Seq::<Seq<PidAddr>>::empty()));
            assert forall|c: u32| #[trigger] after.contains_key(c) implies distinct_classes(
                after[c],
            ) by {
                if c != crc {
                    assert(index.contains_key(c));
                }
            }
        }
    } else {
        let classes = index[crc];
        let asked = members(classes);
        let yes = crate::uksm::first_yes(verdicts);
        let next = after[crc];
        if yes < verdicts.len() && yes < asked.len() {
            crate::uksm::lemma_first_yes(verdicts, 0);
            lemma_class_of(classes, yes);
            lemma_joined(classes, class_of(classes, yes), page);
        } else {
            lemma_founded(classes, page);
        }
        assert forall|q: PidAddr, c: u32|
            holds(after, q, c) <==> holds(index, q, c) || (q == page && c == crc) by {
            lemma_holds_listed(after, q, c);
            lemma_holds_listed(index, q, c);
        }
        if no_empty(index) {
            assert forall|c: u32| #[trigger] after.contains_key(c) implies {
                &&& after[c].len() > 0
                &&& forall|k: int| 0 <= k < after[c].len() ==> (#[trigger] after[c][k]).len() > 0
            } by {
                assert(index.contains_key(c));
                if c == crc {
                    assert forall|k: int| 0 <= k < next.len() implies (#[trigger] next[k]).len()
                        > 0 by {
                        if k < classes.len() {
                            assert(classes[k].len() > 0);
                        }
                    }
                }
            }
        }
        if distinct(index) && !holds(index, page, crc) {
            lemma_holds_listed(index, page, crc);
            assert forall|c: u32| #[trigger] after.contains_key(c) implies distinct_classes(
                after[c],
            ) by {
                assert(index.contains_key(c));
            }
        }
    }
}

/// The index holds a page under a fingerprint where one of the classes of
/// the fingerprint is listed with the page.
pub proof fn lemma_holds_listed(index: Index, page: PidAddr, crc: u32)
    ensures
        holds(index, page, crc) <==> index.contains_key(crc) && listed(index[crc], page),
{
}

/// What taking a page out of the class `k` does to the pages that the
/// classes hold.
pub proof fn lemma_left(classes: Classes, k: int, page: PidAddr)
    requires
        0 <= k < classes.len(),
        classes[k].contains(page),
        distinct_classes(classes),
    ensures
        forall|q: PidAddr|
            #![trigger listed(classes.update(k, without(classes[k], page)), q)]
            #![trigger listed(classes, q)]
            listed(classes.update(k, without(classes[k], page)), q) <==> listed(classes, q) && q
                != page,
        distinct_classes(classes.update(k, without(classes[k], page))),
        without(classes[k], page).len() == 0 ==> (forall|q: PidAddr|
            #![trigger listed(classes.remove(k), q)]
            #![trigger listed(classes, q)]
            listed(classes.remove(k), q) <==> listed(classes, q) && q != page),
        distinct_classes(classes.remove(k)),
{
    let rest = without(classes[k], page);
    let after = classes.update(k, rest);
    lemma_without(classes[k], page);
    assert(classes[k].no_duplicates());
    assert forall|q: PidAddr| listed(after, q) <==> listed(classes, q) && q != page by {
        if listed(after, q) {
            let j = choose|j: int| 0 <= j < after.len() && (#[trigger] after[j]).contains(q);
            if j != k {
                assert(classes[j].contains(q));
                if q == page {
                    assert(classes[k].contains(page));
                    assert(!classes[j].contains(page));
                }
            } else {
                assert(classes[k].contains(q));
            }
        }
        if listed(classes, q) && q != page {
            let j = choose|j: int| 0 <= j < classes.len() && (#[trigger] classes[j]).contains(q);
            assert(after[j].contains(q));
        }
    }
    assert forall|j: int| 0 <= j < after.len() implies (#[trigger] after[j]).no_duplicates() by {
        if j != k {
            assert(classes[j].no_duplicates());
        }
    }
    assert forall|i: int, j: int, q: PidAddr|
        0 <= i < after.len() && 0 <= j < after.len() && i != j && #[trigger] after[i].contains(q) implies !#[trigger] after[j].contains(q) by {
        assert(classes[i].contains(q));
        assert(!classes[j].contains(q));
    }
    let gone = classes.remove(k);
    assert forall|j: int| 0 <= j < gone.len() implies (#[trigger] gone[j]).no_duplicates() by {
        if j < k {
            assert(classes[j].no_duplicates());
        } else {
            assert(classes[j + 1].no_duplicates());
        }
    }
    assert forall|i: int, j: int, q: PidAddr|
        0 <= i < gone.len() && 0 <= j < gone.len() && i != j && #[trigger] gone[i].contains(q) implies !#[trigger] gone[j].contains(q) by {
        let a = if i < k {
            i
        } else {
            i + 1
        };
        let b = if j < k {
            j
        } else {
            j + 1
        };
        assert(classes[a].contains(q));
        assert(!classes[b].contains(q));
    }
    if rest.len() == 0 {
        assert forall|q: PidAddr| listed(gone, q) <==> listed(classes, q) && q != page by {
            if listed(gone, q) {
                let j = choose|j: int| 0 <= j < gone.len() && (#[trigger] gone[j]).contains(q);
                let a = if j < k {
                    j
                } else {
                    j + 1
                };
                assert(classes[a].contains(q));
                if q == page {
                    assert(!classes[a].contains(page));
                }
            }
            if listed(classes, q) && q != page {
                let j = choose|j: int| 0 <= j < classes.len() && (#[trigger] classes[j]).contains(q);
                if j == k {
                    assert(rest.contains(q));
                } else if j < k {
                    assert(gone[j].contains(q));
                } else {
                    assert(gone[j - 1].contains(q));
                }
            }
        }
    }
}

/// What removing does to the index.
pub proof fn lemma_removed(index: Index, page: PidAddr, crc: u32)
    ensures
        forall|q: PidAddr, c: u32| #[trigger]
            holds(removed(index, page, crc), q, c) ==> holds(index, q, c),
        distinct(index) ==> (forall|q: PidAddr, c: u32|
            #![trigger holds(removed(index, page, crc), q, c)]
            #![trigger holds(index, q, c)]
            holds(removed(index, page, crc), q, c) <==> holds(index, q, c) && !(q == page && c
                == crc)),
        distinct(index) ==> distinct(removed(index, page, crc)),
        no_empty(index) ==> no_empty(removed(index, page, crc)),
{
    let after = removed(index, page, crc);
    if index.contains_key(crc) {
        let classes = index[crc];
        let k = first_class_with(classes, page);
        lemma_first_class(classes, page);
        if k < classes.len() {
            let rest = without(classes[k], page);
            lemma_without(classes[k], page);
            assert forall|q: PidAddr, c: u32| holds(after, q, c) implies holds(index, q, c) by {
                if c == crc {
                    let j = choose|j: int| 0 <= j < after[c].len() && (#[trigger] after[c][j]).contains(q);
                    if rest.len() > 0 {
                        if j == k {
                            assert(classes[k].contains(q));
                        } else {
                            assert(classes[j].contains(q));
                        }
                    } else {
                        if j < k {
                            assert(classes[j].contains(q));
                        } else {
                            assert(classes[j + 1].contains(q));
                        }
                    }
                } else {
                    assert(index.contains_key(c));
                    let j = choose|j: int| 0 <= j < after[c].len() && (#[trigger] after[c][j]).contains(q);
                    assert(index[c][j].contains(q));
                }
            }
            if distinct(index) {
                lemma_left(classes, k, page);
                assert forall|q: PidAddr, c: u32|
                    holds(after, q, c) <==> holds(index, q, c) && !(q == page && c == crc) by {
                    lemma_holds_listed(after, q, c);
                    lemma_holds_listed(index, q, c);
                    if c == crc && !after.contains_key(crc) {
                        // The only class held the page alone.
                        if listed(classes, q) && q != page {
                            let j = choose|j: int|
                                0 <= j < classes.len() && (#[trigger] classes[j]).contains(q);
                            assert(j == 0 && k == 0);
                            assert(rest.contains(q));
                        }
                    }
                }
                assert forall|c: u32| #[trigger] after.contains_key(c) implies distinct_classes(
                    after[c],
                ) by {
                    assert(index.contains_key(c));
                }
            }
            if no_empty(index) {
                assert forall|c: u32| #[trigger] after.contains_key(c) implies {
                    &&& after[c].len() > 0
                    &&& forall|j: int| 0 <= j < after[c].len() ==> (#[trigger] after[c][j]).len() > 0
                } by {
                    assert(index.contains_key(c));
                    if c == crc {
                        assert forall|j: int| 0 <= j < after[c].len() implies (
                        #[trigger] after[c][j]).len() > 0 by {
                            if rest.len() > 0 {
                                if j != k {
                                    assert(after[c][j] == classes[j]);
                                }
                            } else {
                                if j < k {
                                    assert(after[c][j] == classes[j]);
                                } else {
                                    assert(after[c][j] == classes[j + 1]);
                                }
                            }
                        }
                    }
                }
            }
        } else {
            assert(after == index);
            lemma_holds_listed(index, page, crc);
        }
    } else {
        assert(after == index);
    }
}

/// The pages of a class that are not of the process `pid`, in their
/// order.
pub open spec fn foreign(class: Seq<PidAddr>, pid: u64) -> Seq<PidAddr>
    decreases class.len(),
{
    if class.len() == 0 {
        class
    } else if class.last().pid == pid {
        foreign(class.drop_last(), pid)
    } else {
        foreign(class.drop_last(), pid).push(class.last())
    }
}

/// The classes without the pages of the process `pid`, and without the
/// classes that hold no other page.
pub open spec fn foreign_classes(classes: Classes, pid: u64) -> Classes
    decreases classes.len(),
{
    if classes.len() == 0 {
        classes
    } else if foreign(classes.last(), pid).len() == 0 {
        foreign_classes(classes.drop_last(), pid)
    } else {
        foreign_classes(classes.drop_last(), pid).push(foreign(classes.last(), pid))
    }
}

/// The index without the pages of the process `pid`: what the index would
/// be if the process had never been merged.
pub open spec fn without_process(index: Index, pid: u64) -> Index {
    Map::new(
        |crc: u32| index.contains_key(crc) && foreign_classes(index[crc], pid).len() > 0,
        |crc: u32| foreign_classes(index[crc], pid),
    )
}

/// Taking a page of the process out of a class does not change the pages
/// of the other processes.
pub proof fn lemma_foreign_without(class: Seq<PidAddr>, page: PidAddr)
    ensures
        foreign(without(class, page), page.pid) == foreign(class, page.pid),
    decreases class.len(),
{
    if class.len() > 0 {
        let front = class.drop_last();
        lemma_foreign_without(front, page);
        if class.last() != page {
            let rest = without(front, page).push(class.last());
            assert(rest.drop_last() =~= without(front, page));
        }
    }
}

/// A class that holds no page of the process is what it is without the
/// pages of the process.
pub proof fn lemma_foreign_all(class: Seq<PidAddr>, pid: u64)
    requires
        forall|i: int| 0 <= i < class.len() ==> (#[trigger] class[i]).pid != pid,
    ensures
        foreign(class, pid) == class,
    decreases class.len(),
{
    if class.len() > 0 {
        lemma_foreign_all(class.drop_last(), pid);
        assert(class.drop_last().push(class.last()) =~= class);
    }
}

/// A class that changes only in its pages of the process leaves the
/// classes without the pages of the process as they are.
pub proof fn lemma_foreign_update(classes: Classes, k: int, class: Seq<PidAddr>, pid: u64)
    requires
        0 <= k < classes.len(),
        foreign(class, pid) == foreign(classes[k], pid),
    ensures
        foreign_classes(classes.update(k, class), pid) == foreign_classes(classes, pid),
    decreases classes.len(),
{
    let after = classes.update(k, class);
    if k == classes.len() - 1 {
        assert(after.drop_last() =~= classes.drop_last());
    } else {
        lemma_foreign_update(classes.drop_last(), k, class, pid);
        assert(after.drop_last() =~= classes.drop_last().update(k, class));
    }
}

/// A class of pages of the process that goes leaves the classes without
/// the pages of the process as they are.
pub proof fn lemma_foreign_remove(classes: Classes, k: int, pid: u64)
    requires
        0 <= k < classes.len(),
        foreign(classes[k], pid).len() == 0,
    ensures
        foreign_classes(classes.remove(k), pid) == foreign_classes(classes, pid),
    decreases classes.len(),
{
    let after = classes.remove(k);
    if k == classes.len() - 1 {
        assert(after =~= classes.drop_last());
    } else {
        lemma_foreign_remove(classes.drop_last(), k, pid);
        assert(after.drop_last() =~= classes.drop_last().remove(k));
        assert(after.last() == classes.last());
    }
}

/// Classes that hold no page of the process, and of which none is empty,
/// are what they are without the pages of the process.
pub proof fn lemma_foreign_classes_all(classes: Classes, pid: u64)
    requires
        forall|k: int, i: int|
            0 <= k < classes.len() && 0 <= i < classes[k].len() ==> (#[trigger] classes[k][i]).pid
                != pid,
        forall|k: int| 0 <= k < classes.len() ==> (#[trigger] classes[k]).len() > 0,
    ensures
        foreign_classes(classes, pid) == classes,
    decreases classes.len(),
{
    if classes.len() > 0 {
        let front = classes.drop_last();
        assert forall|k: int, i: int| 0 <= k < front.len() && 0 <= i < front[k].len() implies (
        #[trigger] front[k][i]).pid != pid by {
            assert(front[k][i] == classes[k][i]);
        }
        assert forall|k: int| 0 <= k < front.len() implies (#[trigger] front[k]).len() > 0 by {
            assert(front[k] == classes[k]);
        }
        lemma_foreign_classes_all(front, pid);
        let last = classes.last();
        assert forall|i: int| 0 <= i < last.len() implies (#[trigger] last[i]).pid != pid by {
            assert(last[i] == classes[classes.len() - 1][i]);
        }
        lemma_foreign_all(last, pid);
        assert(classes[classes.len() - 1].len() > 0);
        assert(front.push(last) =~= classes);
    }
}

/// A class of one page holds no page of another process.
pub proof fn lemma_foreign_single(page: PidAddr)
    ensures
        foreign(seq![page], page.pid).len() == 0,
{
    let alone = seq![page];
    assert(alone.last() == page);
    assert(alone.drop_last() =~= Seq::<PidAddr>::empty());
    assert(foreign(alone.drop_last(), page.pid).len() == 0);
}

/// Adding a page of a process leaves the index without the pages of the
/// process as it is.
pub proof fn lemma_added_foreign(index: Index, page: PidAddr, crc: u32, verdicts: Seq<bool>)
    ensures
        without_process(added(index, page, crc, verdicts).0, page.pid) == without_process(
            index,
            page.pid,
        ),
{
    let pid = page.pid;
    let after = added(index, page, crc, verdicts).0;
    if !index.contains_key(crc) {
        let alone = seq![seq![page]];
        assert(alone.drop_last() =~= Seq::<Seq<PidAddr>>::empty());
        assert(alone.last() == seq![page]);
        lemma_foreign_single(page);
        assert(foreign_classes(alone.drop_last(), pid).len() == 0);
        assert(foreign_classes(alone, pid).len() == 0);
    } else {
        let classes = index[crc];
        let asked = members(classes);
        let yes = crate::uksm::first_yes(verdicts);
        if yes < verdicts.len() && yes < asked.len() {
            crate::uksm::lemma_first_yes(verdicts, 0);
            lemma_class_of(classes, yes);
            let k = class_of(classes, yes);
            let grown = classes[k].push(page);
            assert(grown.drop_last() =~= classes[k]);
            lemma_foreign_update(classes, k, grown, pid);
        } else if verdicts.len() >= asked.len() {
            let more = classes.push(seq![page]);
            assert(more.drop_last() =~= classes);
            lemma_foreign_single(page);
        }
    }
    assert(without_process(after, pid) =~= without_process(index, pid));
}

/// Removing a page of a process leaves the index without the pages of the
/// process as it is.
pub proof fn lemma_removed_foreign(index: Index, page: PidAddr, crc: u32)
    ensures
        without_process(removed(index, page, crc), page.pid) == without_process(index, page.pid),
{
    let pid = page.pid;
    let after = removed(index, page, crc);
    if index.contains_key(crc) {
        let classes = index[crc];
        let k = first_class_with(classes, page);
        lemma_first_class(classes, page);
        if k < classes.len() {
            let rest = without(classes[k], page);
            lemma_foreign_without(classes[k], page);
            if rest.len() > 0 {
                lemma_foreign_update(classes, k, rest, pid);
            } else {
                lemma_foreign_remove(classes, k, pid);
                if classes.len() == 1 {
                    assert(classes.remove(k) =~= Seq::<Seq<PidAddr>>::empty());
                }
            }
        }
    }
    assert(without_process(after, pid) =~= without_process(index, pid));
}

/// An index that holds no page of the process, and in which no class is
/// empty and no fingerprint is without a class, is what it is without the
/// pages of the process.
pub proof fn lemma_unlisted_foreign(index: Index, pid: u64)
    requires
        no_empty(index),
        forall|page: PidAddr, crc: u32| #[trigger] holds(index, page, crc) ==> page.pid != pid,
    ensures
        without_process(index, pid) == index,
{
    assert forall|crc: u32| #[trigger] index.contains_key(crc) implies foreign_classes(
        index[crc],
        pid,
    ) == index[crc] by {
        let classes = index[crc];
        assert forall|k: int, i: int|
            0 <= k < classes.len() && 0 <= i < classes[k].len() implies (#[trigger] classes[k][i]).pid
            != pid by {
            assert(classes[k].contains(classes[k][i]));
            assert(holds(index, classes[k][i], crc));
        }
        lemma_foreign_classes_all(classes, pid);
    }
    assert(without_process(index, pid) =~= index);
}

} // verus!

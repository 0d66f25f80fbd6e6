//! What a directory holds, and the order it is shown in: directories first,
//! then files, each alphabetically without regard to case.
use crate::order;
use crate::text;
use vstd::prelude::*;

verus! {

#[derive(Debug, PartialEq, Eq)]
pub struct Entry {
    pub name: String,
    pub is_dir: bool,
}

/// What an entry says.
pub struct EntryView {
    pub name: Seq<char>,
    pub is_dir: bool,
}

impl View for Entry {
    type V = EntryView;

    open spec fn view(&self) -> EntryView {
        EntryView { name: self.name@, is_dir: self.is_dir }
    }
}

impl Clone for Entry {
    fn clone(&self) -> (copy: Entry)
        ensures
            copy@ == self@,
    {
        Entry { name: self.name.clone(), is_dir: self.is_dir }
    }
}

// ---------------------------------------------------------------------------
// Models
// ---------------------------------------------------------------------------

/// What each entry of a list says.
pub open spec fn entries(list: Seq<Entry>) -> Seq<EntryView> {
    Seq::new(list.len(), |i: int| list[i]@)
}

/// Whether `a` is listed strictly before `b`: directories before files, then
/// by the name in lower case, then by the name itself.
pub open spec fn listed_before(a: EntryView, b: EntryView) -> bool {
    if a.is_dir != b.is_dir {
        a.is_dir
    } else if text::lowered(a.name) != text::lowered(b.name) {
        order::before(text::lowered(a.name), text::lowered(b.name))
    } else {
        order::before(a.name, b.name)
    }
}

/// Whether a list is in the order it is shown in.
pub open spec fn in_order(list: Seq<EntryView>) -> bool {
    forall|i: int, j: int| 0 <= i < j < list.len() ==> !listed_before(#[trigger] list[j], #[trigger] list[i])
}

// ---------------------------------------------------------------------------
// The order is total
// ---------------------------------------------------------------------------

proof fn lemma_listed_transitive(a: EntryView, b: EntryView, c: EntryView)
    requires
        listed_before(a, b),
        listed_before(b, c),
    ensures
        listed_before(a, c),
{
    let x = text::lowered(a.name);
    let y = text::lowered(b.name);
    let z = text::lowered(c.name);
    if a.is_dir == b.is_dir && b.is_dir == c.is_dir {
        if x == y && y == z {
            order::lemma_before_transitive(a.name, b.name, c.name);
        } else if x != y && y != z {
            order::lemma_before_transitive(x, y, z);
            order::lemma_before_irreflexive(x);
        }
    }
}

proof fn lemma_listed_irreflexive(a: EntryView)
    ensures
        !listed_before(a, a),
{
    order::lemma_before_irreflexive(a.name);
}

proof fn lemma_listed_total(a: EntryView, b: EntryView)
    ensures
        a == b || listed_before(a, b) || listed_before(b, a),
{
    order::lemma_before_total(text::lowered(a.name), text::lowered(b.name));
    order::lemma_before_total(a.name, b.name);
}

/// What is not after something that is not after a third is not after it.
proof fn lemma_not_after(a: EntryView, b: EntryView, c: EntryView)
    requires
        !listed_before(b, a),
        !listed_before(c, b),
    ensures
        !listed_before(c, a),
{
    if listed_before(c, a) {
        lemma_listed_total(a, b);
        if a != b {
            lemma_listed_transitive(c, a, b);
        }
    }
}

/// The listing order leaves nothing open: two orderings of the same entries
/// are the same list.
pub proof fn listing_order_is_unique(a: Seq<EntryView>, b: Seq<EntryView>)
    requires
        in_order(a),
        in_order(b),
        a.to_multiset() == b.to_multiset(),
    ensures
        a == b,
{
    let leq = |x: EntryView, y: EntryView| !listed_before(y, x);
    assert(vstd::relations::total_ordering(leq)) by {
        assert forall|x: EntryView| #[trigger] leq(x, x) by {
            lemma_listed_irreflexive(x);
        }
        assert forall|x: EntryView, y: EntryView| #[trigger] leq(x, y) && #[trigger] leq(y, x) implies x
            == y by {
            lemma_listed_total(x, y);
        }
        assert forall|x: EntryView, y: EntryView, z: EntryView| #[trigger]
            leq(x, y) && #[trigger] leq(y, z) implies leq(x, z) by {
            lemma_not_after(x, y, z);
        }
        assert forall|x: EntryView, y: EntryView| #[trigger] leq(x, y) || #[trigger] leq(y, x) by {
            if listed_before(y, x) && listed_before(x, y) {
                lemma_listed_transitive(x, y, x);
                lemma_listed_irreflexive(x);
            }
        }
    }
    vstd::seq_lib::lemma_sorted_unique(a, b, leq);
}

/// In a listing no file comes before a directory.
pub proof fn directories_come_first(list: Seq<EntryView>, i: int, j: int)
    requires
        in_order(list),
        0 <= i < j < list.len(),
    ensures
        list[j].is_dir ==> list[i].is_dir,
{
    assert(!listed_before(list[j], list[i]));
}

// ---------------------------------------------------------------------------
// Sorting
// ---------------------------------------------------------------------------

/// An entry with what it is sorted by.
struct Keyed {
    entry: Entry,
    folded: Vec<char>,
    name: Vec<char>,
}

impl Keyed {
    spec fn wf(self) -> bool {
        &&& self.folded@ == text::lowered(self.entry.name@)
        &&& self.name@ == self.entry.name@
    }
}

spec fn keyed_wf(list: Seq<Keyed>) -> bool {
    forall|i: int| 0 <= i < list.len() ==> (#[trigger] list[i]).wf()
}

spec fn keyed(list: Seq<Keyed>) -> Seq<EntryView> {
    Seq::new(list.len(), |i: int| list[i].entry@)
}

fn key_before(a: &Keyed, b: &Keyed) -> (yes: bool)
    requires
        a.wf(),
        b.wf(),
    ensures
        yes == listed_before(a.entry@, b.entry@),
{
    if a.entry.is_dir != b.entry.is_dir {
        a.entry.is_dir
    } else if !text::same_chars(&a.folded, &b.folded) {
        order::chars_before(&a.folded, &b.folded)
    } else {
        order::chars_before(&a.name, &b.name)
    }
}

/// Takes two ordered lists apart from their ends, largest first.
fn merge_down(left: Vec<Keyed>, right: Vec<Keyed>) -> (out: Vec<Keyed>)
    requires
        keyed_wf(left@),
        keyed_wf(right@),
        in_order(keyed(left@)),
        in_order(keyed(right@)),
    ensures
        keyed_wf(out@),
        in_order(keyed(out@).reverse()),
        keyed(out@).to_multiset() == keyed(left@).to_multiset().add(keyed(right@).to_multiset()),
{
    let mut a = left;
    let mut b = right;
    let mut out: Vec<Keyed> = Vec::new();
    let ghost total = keyed(a@).to_multiset().add(keyed(b@).to_multiset());
    proof {
        broadcast use vstd::seq_lib::group_to_multiset_ensures;

        assert(keyed(out@) =~= Seq::<EntryView>::empty());
        assert(keyed(a@).to_multiset().add(keyed(b@).to_multiset()).add(
            keyed(out@).to_multiset(),
        ) =~= total);
    }
    while a.len() > 0 || b.len() > 0
        invariant
            keyed_wf(a@),
            keyed_wf(b@),
            keyed_wf(out@),
            in_order(keyed(a@)),
            in_order(keyed(b@)),
            in_order(keyed(out@).reverse()),
            forall|i: int, j: int|
                0 <= i < a@.len() && 0 <= j < out@.len() ==> !listed_before(
                    #[trigger] out@[j].entry@,
                    #[trigger] a@[i].entry@,
                ),
            forall|i: int, j: int|
                0 <= i < b@.len() && 0 <= j < out@.len() ==> !listed_before(
                    #[trigger] out@[j].entry@,
                    #[trigger] b@[i].entry@,
                ),
            keyed(a@).to_multiset().add(keyed(b@).to_multiset()).add(keyed(out@).to_multiset())
                == total,
        decreases a@.len() + b@.len(),
    {
        let from_left = b.len() == 0 || (a.len() > 0 && key_before(
            &b[b.len() - 1],
            &a[a.len() - 1],
        ));
        let ghost a0 = a@;
        let ghost b0 = b@;
        let ghost out0 = out@;
        proof {
            lemma_last_is_largest(keyed(a0));
            lemma_last_is_largest(keyed(b0));
        }
        let taken = if from_left {
            a.pop()
        } else {
            b.pop()
        };
        if let Some(k) = taken {
            proof {
                broadcast use vstd::seq_lib::group_to_multiset_ensures;

                if from_left {
                    assert(keyed(a0) =~= keyed(a@).push(k.entry@));
                    assert(keyed(a0).last() == k.entry@);
                    assert forall|i: int| 0 <= i < a@.len() implies !listed_before(
                        k.entry@,
                        #[trigger] a@[i].entry@,
                    ) by {
                        assert(keyed(a0)[i] == a@[i].entry@);
                    }
                    assert forall|i: int| 0 <= i < b@.len() implies !listed_before(
                        k.entry@,
                        #[trigger] b@[i].entry@,
                    ) by {
                        let top = keyed(b0).last();
                        assert(keyed(b0)[i] == b@[i].entry@);
                        lemma_listed_total(top, k.entry@);
                        if listed_before(k.entry@, top) {
                            lemma_listed_transitive(k.entry@, top, k.entry@);
                            lemma_listed_irreflexive(k.entry@);
                        }
                        lemma_not_after(b@[i].entry@, top, k.entry@);
                    }
                } else {
                    assert(keyed(b0) =~= keyed(b@).push(k.entry@));
                    assert(keyed(b0).last() == k.entry@);
                    assert forall|i: int| 0 <= i < b@.len() implies !listed_before(
                        k.entry@,
                        #[trigger] b@[i].entry@,
                    ) by {
                        assert(keyed(b0)[i] == b@[i].entry@);
                    }
                    assert forall|i: int| 0 <= i < a@.len() implies !listed_before(
                        k.entry@,
                        #[trigger] a@[i].entry@,
                    ) by {
                        let top = keyed(a0).last();
                        assert(keyed(a0)[i] == a@[i].entry@);
                        lemma_not_after(a@[i].entry@, top, k.entry@);
                    }
                }
                assert forall|j: int| 0 <= j < out0.len() implies !listed_before(
                    #[trigger] out0[j].entry@,
                    k.entry@,
                ) by {
                    if from_left {
                        assert(a0[a0.len() - 1].entry@ == k.entry@);
                    } else {
                        assert(b0[b0.len() - 1].entry@ == k.entry@);
                    }
                }
            }
            proof {
                assert(in_order(keyed(a@))) by {
                    assert(keyed(a@) =~= keyed(a0).take(a@.len() as int));
                    lemma_prefix_in_order(keyed(a0), a@.len() as int);
                }
                assert(in_order(keyed(b@))) by {
                    assert(keyed(b@) =~= keyed(b0).take(b@.len() as int));
                    lemma_prefix_in_order(keyed(b0), b@.len() as int);
                }
            }
            out.push(k);
            proof {
                broadcast use vstd::seq_lib::group_to_multiset_ensures;

                assert(keyed(out@) =~= keyed(out0).push(k.entry@));
                assert(keyed(a@).to_multiset().add(keyed(b@).to_multiset()).add(
                    keyed(out@).to_multiset(),
                ) =~= total);
                let up = keyed(out@).reverse();
                assert forall|i: int, j: int| 0 <= i < j < up.len() implies !listed_before(
                    #[trigger] up[j],
                    #[trigger] up[i],
                ) by {
                    let old_up = keyed(out0).reverse();
                    assert(up[j] == old_up[j - 1]);
                    if i > 0 {
                        assert(up[i] == old_up[i - 1]);
                    } else {
                        assert(up[i] == k.entry@);
                        assert(up[j] == out0[out0.len() - j].entry@);
                    }
                }
            }
        }
    }
    proof {
        assert(keyed(a@) =~= Seq::<EntryView>::empty());
        assert(keyed(b@) =~= Seq::<EntryView>::empty());
        broadcast use vstd::seq_lib::group_to_multiset_ensures;

        assert(keyed(out@).to_multiset() =~= total);
    }
    out
}

proof fn lemma_prefix_in_order(list: Seq<EntryView>, n: int)
    requires
        in_order(list),
        0 <= n <= list.len(),
    ensures
        in_order(list.take(n)),
{
    let head = list.take(n);
    assert forall|i: int, j: int| 0 <= i < j < head.len() implies !listed_before(
        #[trigger] head[j],
        #[trigger] head[i],
    ) by {
        assert(head[i] == list[i] && head[j] == list[j]);
    }
}

proof fn lemma_last_is_largest(list: Seq<EntryView>)
    requires
        in_order(list),
    ensures
        forall|i: int|
            0 <= i < list.len() ==> !listed_before(list.last(), #[trigger] list[i]),
{
    assert forall|i: int| 0 <= i < list.len() implies !listed_before(
        list.last(),
        #[trigger] list[i],
    ) by {
        if i < list.len() - 1 {
            assert(!listed_before(list[list.len() - 1], list[i]));
        } else {
            lemma_listed_irreflexive(list.last());
        }
    }
}

/// A list, last element first.
fn reversed(list: Vec<Keyed>) -> (out: Vec<Keyed>)
    requires
        keyed_wf(list@),
    ensures
        keyed_wf(out@),
        keyed(out@) == keyed(list@).reverse(),
{
    let ghost all = list@;
    let mut rest = list;
    let mut out: Vec<Keyed> = Vec::new();
    while rest.len() > 0
        invariant
            keyed_wf(rest@),
            keyed_wf(out@),
            rest@.len() + out@.len() == all.len(),
            rest@ == all.take(rest@.len() as int),
            forall|i: int| 0 <= i < out@.len() ==> #[trigger] out@[i] == all[all.len() - 1 - i],
        decreases rest@.len(),
    {
        let ghost rest0 = rest@;
        if let Some(k) = rest.pop() {
            assert(k == all[rest0.len() - 1]);
            out.push(k);
            assert(rest@ =~= all.take(rest@.len() as int));
        }
    }
    assert(keyed(out@) =~= keyed(all).reverse());
    out
}

fn merge_sort(list: Vec<Keyed>) -> (out: Vec<Keyed>)
    requires
        keyed_wf(list@),
    ensures
        keyed_wf(out@),
        in_order(keyed(out@)),
        keyed(out@).to_multiset() == keyed(list@).to_multiset(),
    decreases list@.len(),
{
    if list.len() < 2 {
        return list;
    }
    let ghost all = list@;
    let mut left = list;
    let half = left.len() / 2;
    let right = left.split_off(half);
    proof {
        assert(keyed(all) =~= keyed(left@) + keyed(right@));
        vstd::seq_lib::lemma_multiset_commutative(keyed(left@), keyed(right@));
    }
    let a = merge_sort(left);
    let b = merge_sort(right);
    let down = merge_down(a, b);
    proof {
        keyed(down@).lemma_reverse_to_multiset();
    }
    reversed(down)
}

/// Puts a list of entries into the order it is shown in.
pub fn sort_entries(entries: &mut Vec<Entry>)
    ensures
        in_order(self::entries(final(entries)@)),
        self::entries(final(entries)@).to_multiset() == self::entries(old(entries)@).to_multiset(),
{
    let ghost all = entries@;
    let mut list: Vec<Keyed> = Vec::new();
    let mut i: usize = 0;
    while i < entries.len()
        invariant
            i <= entries@.len(),
            entries@ == all,
            list@.len() == i,
            keyed_wf(list@),
            forall|k: int| 0 <= k < i ==> (#[trigger] list@[k]).entry@ == all[k]@,
        decreases entries@.len() - i,
    {
        let e = &entries[i];
        let folded = text::to_lowercase(e.name.as_str());
        let key = Keyed {
            folded: text::chars_of(folded.as_str()),
            name: text::chars_of(e.name.as_str()),
            entry: e.clone(),
        };
        list.push(key);
        i += 1;
    }
    assert(keyed(list@) =~= self::entries(all));
    let sorted = merge_sort(list);
    let ghost done = keyed(sorted@);
    let mut out: Vec<Entry> = Vec::new();
    let mut j: usize = 0;
    while j < sorted.len()
        invariant
            j <= sorted@.len(),
            done == keyed(sorted@),
            out@.len() == j,
            forall|k: int| 0 <= k < j ==> (#[trigger] out@[k])@ == done[k],
        decreases sorted@.len() - j,
    {
        let e = &sorted[j].entry;
        out.push(e.clone());
        j += 1;
    }
    assert(self::entries(out@) =~= done);
    *entries = out;
}

/// Among directories, and among files, a listing goes by the name in lower case,
/// and by the name itself where that is the same.
pub proof fn names_are_listed_in_order(list: Seq<EntryView>, i: int, j: int)
    requires
        in_order(list),
        0 <= i < j < list.len(),
        list[i].is_dir == list[j].is_dir,
    ensures
        ({
            let a = text::lowered(list[i].name);
            let b = text::lowered(list[j].name);
            &&& a == b || order::before(a, b)
            &&& a == b ==> list[i].name == list[j].name || order::before(
                list[i].name,
                list[j].name,
            )
        }),
{
    let a = text::lowered(list[i].name);
    let b = text::lowered(list[j].name);
    assert(!listed_before(list[j], list[i]));
    order::lemma_before_total(a, b);
    order::lemma_before_total(list[i].name, list[j].name);
}

/// A list that goes by these rules is in order: directories before files, then by
/// the name in lower case, then by the name.
pub proof fn a_list_by_these_rules_is_in_order(list: Seq<EntryView>)
    requires
        forall|i: int, j: int|
            0 <= i < j < list.len() ==> {
                let x = #[trigger] list[i];
                let y = #[trigger] list[j];
                ||| x.is_dir && !y.is_dir
                ||| x.is_dir == y.is_dir && order::before(
                    text::lowered(x.name),
                    text::lowered(y.name),
                )
                ||| x.is_dir == y.is_dir && text::lowered(x.name) == text::lowered(y.name)
                    && order::before(x.name, y.name)
            },
    ensures
        in_order(list),
{
    assert forall|i: int, j: int| 0 <= i < j < list.len() implies !listed_before(
        #[trigger] list[j],
        #[trigger] list[i],
    ) by {
        let x = list[i];
        let y = list[j];
        order::lemma_before_irreflexive(text::lowered(x.name));
        order::lemma_before_irreflexive(x.name);
        if listed_before(y, x) {
            if order::before(text::lowered(x.name), text::lowered(y.name)) {
                if text::lowered(x.name) != text::lowered(y.name) {
                    order::lemma_before_transitive(
                        text::lowered(x.name),
                        text::lowered(y.name),
                        text::lowered(x.name),
                    );
                }
            } else if x.is_dir == y.is_dir {
                order::lemma_before_transitive(x.name, y.name, x.name);
            }
        }
    }
}

} // verus!

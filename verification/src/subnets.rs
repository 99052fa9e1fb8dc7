//! Subnets that the user has saved, to be tried before the common ones.
use crate::text;
use vstd::prelude::*;

verus! {

/// A saved subnet.
#[derive(Debug, Clone, PartialEq)]
pub struct CustomSubnet {
    /// The first three octets, such as `198.120.0`.
    pub base: String,
    pub mask: String,
    pub label: Option<String>,
}

/// The contents of a `CustomSubnet`.
pub struct SubnetView {
    pub base: Seq<char>,
    pub mask: Seq<char>,
    pub label: Option<Seq<char>>,
}

impl View for CustomSubnet {
    type V = SubnetView;

    open spec fn view(&self) -> SubnetView {
        SubnetView { base: self.base@, mask: self.mask@, label: text::opt_view(self.label) }
    }
}

/// The contents of each of a list of subnets.
pub open spec fn subnet_views(list: Seq<CustomSubnet>) -> Seq<SubnetView> {
    list.map_values(|c: CustomSubnet| c@)
}

/// The entry has exactly this base and mask.
pub open spec fn is_entry(c: SubnetView, base: Seq<char>, mask: Seq<char>) -> bool {
    c.base == base && c.mask == mask
}

/// Some entry has exactly this base and mask.
pub open spec fn listed(list: Seq<SubnetView>, base: Seq<char>, mask: Seq<char>) -> bool {
    exists|i: int| 0 <= i < list.len() && is_entry(#[trigger] list[i], base, mask)
}

/// The list without the entries that have this base and mask.
pub open spec fn without(list: Seq<SubnetView>, base: Seq<char>, mask: Seq<char>) -> Seq<SubnetView>
    decreases list.len(),
{
    if list.len() == 0 {
        seq![]
    } else if is_entry(list.last(), base, mask) {
        without(list.drop_last(), base, mask)
    } else {
        without(list.drop_last(), base, mask).push(list.last())
    }
}

fn entry_is(c: &CustomSubnet, base: &str, mask: &str) -> (r: bool)
    ensures
        r == is_entry(c@, base@, mask@),
{
    text::str_same(c.base.as_str(), base) && text::str_same(c.mask.as_str(), mask)
}

/// Tells whether the list has an entry with exactly this base and mask.
pub fn contains(list: &[CustomSubnet], base: &str, mask: &str) -> (r: bool)
    ensures
        r == listed(subnet_views(list@), base@, mask@),
{
    let ghost v = subnet_views(list@);
    let mut i: usize = 0;
    while i < list.len()
        invariant
            v == subnet_views(list@),
            i <= list@.len(),
            forall|j: int| 0 <= j < i ==> !is_entry(#[trigger] v[j], base@, mask@),
        decreases list@.len() - i,
    {
        assert(v[i as int] == list@[i as int]@);
        if entry_is(&list[i], base, mask) {
            return true;
        }
        i += 1;
    }
    false
}

/// Removes the entries with exactly this base and mask, and tells whether
/// there were any.
pub fn remove(list: &mut Vec<CustomSubnet>, base: &str, mask: &str) -> (r: bool)
    ensures
        subnet_views(final(list)@) == without(subnet_views(old(list)@), base@, mask@),
        r == listed(subnet_views(old(list)@), base@, mask@),
{
    let ghost v = subnet_views(list@);
    let ghost mut k: int = 0;
    let mut removed = false;
    let mut i: usize = 0;
    assert(subnet_views(list@) =~= without(v.take(0), base@, mask@) + v.skip(0));
    while i < list.len()
        invariant
            0 <= k <= v.len(),
            i == without(v.take(k), base@, mask@).len(),
            subnet_views(list@) == without(v.take(k), base@, mask@) + v.skip(k),
            removed == listed(v.take(k), base@, mask@),
        decreases v.len() - k,
    {
        let ghost kept = without(v.take(k), base@, mask@);
        let ghost now = v.take(k + 1);
        let ghost before = list@;
        proof {
            assert(subnet_views(list@)[i as int] == list@[i as int]@);
            assert(list@[i as int]@ == v[k]);
            assert(now.drop_last() =~= v.take(k));
            assert(now.last() == v[k]);
            lemma_listed_push(v.take(k), v[k], base@, mask@);
            assert(now =~= v.take(k).push(v[k]));
        }
        if entry_is(&list[i], base, mask) {
            list.remove(i);
            removed = true;
            proof {
                let old_views = subnet_views(before);
                assert(old_views == kept + v.skip(k));
                assert(old_views.len() == before.len());
                assert(list@ =~= before.remove(i as int));
                assert(list@.len() == before.len() - 1);
                assert forall|j: int| 0 <= j < list@.len() implies subnet_views(list@)[j] == (kept + v.skip(
                    k + 1,
                ))[j] by {
                    if j < i {
                        assert(old_views[j] == before[j]@);
                    } else {
                        assert(old_views[j + 1] == before[j + 1]@);
                        assert(old_views[j + 1] == v.skip(k)[j + 1 - i]);
                    }
                }
                assert(subnet_views(list@) =~= kept + v.skip(k + 1));
            }
        } else {
            assert(subnet_views(list@) =~= kept.push(v[k]) + v.skip(k + 1));
            i += 1;
        }
        proof {
            k = k + 1;
        }
    }
    proof {
        assert(subnet_views(list@).len() == i);
        assert(k == v.len());
        assert(v.take(k) =~= v);
        assert(subnet_views(list@) =~= without(v, base@, mask@));
    }
    removed
}

proof fn lemma_listed_push(list: Seq<SubnetView>, c: SubnetView, base: Seq<char>, mask: Seq<char>)
    ensures
        listed(list.push(c), base, mask) == (listed(list, base, mask) || is_entry(c, base, mask)),
{
    let more = list.push(c);
    assert(more[list.len() as int] == c);
    if listed(list, base, mask) {
        let j = choose|j: int| 0 <= j < list.len() && is_entry(#[trigger] list[j], base, mask);
        assert(is_entry(more[j], base, mask));
    }
    if listed(more, base, mask) && !is_entry(c, base, mask) {
        let j = choose|j: int| 0 <= j < more.len() && is_entry(#[trigger] more[j], base, mask);
        assert(is_entry(list[j], base, mask));
    }
}

/// What saving a subnet did to the list.
#[derive(Debug, Clone, Copy, PartialEq, Eq)]
pub enum Toggle {
    Removed,
    Added,
}

/// The list after a subnet has been saved: an entry that is there is removed,
/// one that is not comes last.
pub open spec fn toggled(list: Seq<SubnetView>, base: Seq<char>, mask: Seq<char>) -> Seq<SubnetView> {
    if listed(list, base, mask) {
        without(list, base, mask)
    } else {
        list.push(SubnetView { base: base, mask: mask, label: None })
    }
}

/// Saves a subnet, or removes it if it is saved already.
pub fn toggle(list: &mut Vec<CustomSubnet>, base: &str, mask: &str) -> (r: Toggle)
    ensures
        subnet_views(final(list)@) == toggled(subnet_views(old(list)@), base@, mask@),
        r is Removed <==> listed(subnet_views(old(list)@), base@, mask@),
        r is Added ==> final(list)@.drop_last() == old(list)@,
{
    if contains(list.as_slice(), base, mask) {
        remove(list, base, mask);
        return Toggle::Removed;
    }
    let ghost before = list@;
    let entry = CustomSubnet { base: base.to_owned(), mask: mask.to_owned(), label: None };
    list.push(entry);
    assert(subnet_views(list@) =~= subnet_views(before).push(entry@));
    assert(list@.drop_last() =~= before);
    Toggle::Added
}

// ---------------------------------------------------------------------------
// Laws
// ---------------------------------------------------------------------------

/// A removed subnet is no longer listed, and every other entry stays.
pub proof fn lemma_without(list: Seq<SubnetView>, base: Seq<char>, mask: Seq<char>)
    ensures
        !listed(without(list, base, mask), base, mask),
        !listed(list, base, mask) ==> without(list, base, mask) == list,
        forall|c: SubnetView|
            !is_entry(c, base, mask) ==> (#[trigger] without(list, base, mask).contains(c) <==> list.contains(c)),
    decreases list.len(),
{
    if list.len() > 0 {
        let init = list.drop_last();
        let last = list.last();
        lemma_without(init, base, mask);
        let w = without(list, base, mask);
        let wi = without(init, base, mask);
        if !is_entry(last, base, mask) {
            assert forall|i: int| 0 <= i < w.len() implies !is_entry(#[trigger] w[i], base, mask) by {
                if i < wi.len() {
                    assert(!is_entry(wi[i], base, mask));
                }
            }
        }
        if !listed(list, base, mask) {
            assert(is_entry(last, base, mask) ==> listed(list, base, mask)) by {
                assert(list[list.len() - 1] == last);
            }
            assert forall|i: int| 0 <= i < init.len() implies !is_entry(#[trigger] init[i], base, mask) by {
                assert(init[i] == list[i]);
            }
            assert(w =~= list);
        }
        assert forall|c: SubnetView| !is_entry(c, base, mask) implies (#[trigger] w.contains(c) <==> list.contains(
            c,
        )) by {
            assert(wi.contains(c) <==> init.contains(c));
            if w.contains(c) {
                let i = choose|i: int| 0 <= i < w.len() && w[i] == c;
                if i < wi.len() {
                    assert(wi[i] == c);
                    let j = choose|j: int| 0 <= j < init.len() && init[j] == c;
                    assert(list[j] == c);
                } else {
                    assert(list[list.len() - 1] == c);
                }
            }
            if list.contains(c) {
                let i = choose|i: int| 0 <= i < list.len() && list[i] == c;
                if i < init.len() {
                    assert(init[i] == c);
                    let j = choose|j: int| 0 <= j < wi.len() && wi[j] == c;
                    assert(w[j] == c);
                } else {
                    assert(w[w.len() - 1] == c);
                }
            }
        }
    }
}

/// To save a subnet that is not saved and then to save it again leaves the
/// list as it was.
pub proof fn lemma_toggled_twice(list: Seq<SubnetView>, base: Seq<char>, mask: Seq<char>)
    requires
        !listed(list, base, mask),
    ensures
        toggled(toggled(list, base, mask), base, mask) == list,
{
    let entry = SubnetView { base: base, mask: mask, label: None };
    let more = list.push(entry);
    assert(is_entry(more[list.len() as int], base, mask));
    assert(more.drop_last() =~= list);
    lemma_without(list, base, mask);
}

/// What is removed is every entry with exactly this base and mask, and nothing
/// else: the others stay in their order.
pub proof fn lemma_without_one_more(list: Seq<SubnetView>, c: SubnetView, base: Seq<char>, mask: Seq<char>)
    ensures
        without(list.push(c), base, mask) == if c.base == base && c.mask == mask {
            without(list, base, mask)
        } else {
            without(list, base, mask).push(c)
        },
        without(seq![], base, mask).len() == 0,
{
    assert(list.push(c).drop_last() =~= list);
}

/// To save a subnet that is not in the list puts it last, without a label, and
/// leaves the others as they are. To save one that is takes out every entry
/// that has its base and mask.
pub proof fn lemma_toggled(list: Seq<SubnetView>, base: Seq<char>, mask: Seq<char>)
    ensures
        ({
            let there = exists|i: int| 0 <= i < list.len() && (#[trigger] list[i]).base == base && list[i].mask == mask;
            let after = toggled(list, base, mask);
            &&& there ==> after == without(list, base, mask)
            &&& !there ==> {
                &&& after.len() == list.len() + 1
                &&& after.take(list.len() as int) == list
                &&& after.last().base == base
                &&& after.last().mask == mask
                &&& after.last().label is None
            }
            &&& listed(after, base, mask) == !there
        }),
{
    let after = toggled(list, base, mask);
    if exists|i: int| 0 <= i < list.len() && (#[trigger] list[i]).base == base && list[i].mask == mask {
        let i = choose|i: int| 0 <= i < list.len() && (#[trigger] list[i]).base == base && list[i].mask == mask;
        assert(is_entry(list[i], base, mask));
    } else {
        assert(!listed(list, base, mask));
        assert(is_entry(after[list.len() as int], base, mask));
        assert(after.take(list.len() as int) =~= list);
    }
    lemma_without(list, base, mask);
}

} // verus!

//! The partition of a collection of stops by group identifier.
//!
//! Groups are not stored anywhere for long: each stage that needs them
//! builds the partition afresh as an ordered list of buckets, one per
//! identifier in use, with identifiers ascending and every bucket's stops in
//! the order in which the stage received them.

use vstd::multiset::Multiset;
use vstd::prelude::*;
use vstd::seq_lib::*;
use crate::model::Item;

verus! {

/// The test "is filed under group `g`".
pub open spec fn carries(g: usize) -> spec_fn(Item) -> bool {
    |it: Item| it.g == g
}

/// The stops of `items` filed under group `g`, in their order in `items`.
pub open spec fn members_of(items: Seq<Item>, g: usize) -> Seq<Item> {
    items.filter(carries(g))
}

/// One group of a partition: its identifier and its stops.
pub struct Group {
    pub id: usize,
    pub members: Seq<Item>,
}

/// A group as held in memory.
pub struct Bucket {
    pub id: usize,
    pub members: Vec<Item>,
}

impl View for Bucket {
    type V = Group;

    open spec fn view(&self) -> Group {
        Group { id: self.id, members: self.members@ }
    }
}

/// The groups that a list of buckets holds.
pub open spec fn groups_of(parts: Seq<Bucket>) -> Seq<Group> {
    Seq::new(parts.len(), |i: int| parts[i]@)
}

/// The place of identifier `g` in a list of groups, searching from index
/// `from`: the index of the first group there whose identifier is not below
/// `g`, or the length of the list.
pub open spec fn slot_from(groups: Seq<Group>, g: usize, from: int) -> int
    decreases groups.len() - from,
{
    if from < 0 || from >= groups.len() || groups[from].id >= g {
        from
    } else {
        slot_from(groups, g, from + 1)
    }
}

/// The place of identifier `g` in a list of groups.
pub open spec fn slot(groups: Seq<Group>, g: usize) -> int {
    slot_from(groups, g, 0)
}

/// What `slot_from` finds: every group from `from` up to it lies below `g`,
/// and the group at it, if any, does not.
pub proof fn lemma_slot_from(groups: Seq<Group>, g: usize, from: int)
    requires
        0 <= from <= groups.len(),
    ensures
        from <= slot_from(groups, g, from) <= groups.len(),
        forall|j: int| from <= j < slot_from(groups, g, from) ==> (#[trigger] groups[j]).id < g,
        slot_from(groups, g, from) < groups.len() ==> groups[slot_from(groups, g, from)].id >= g,
    decreases groups.len() - from,
{
    if from < groups.len() && groups[from].id < g {
        lemma_slot_from(groups, g, from + 1);
    }
}

/// Files one stop into a list of groups: at the end of the group with its
/// identifier, or, where there is none, as a new group put in its place.
pub open spec fn file(groups: Seq<Group>, it: Item) -> Seq<Group> {
    let i = slot(groups, it.g);
    if i < groups.len() && groups[i].id == it.g {
        groups.update(i, Group { id: it.g, members: groups[i].members.push(it) })
    } else {
        groups.insert(i, Group { id: it.g, members: seq![it] })
    }
}

/// The partition of `items` by group: every stop filed in turn.
pub open spec fn grouping(items: Seq<Item>) -> Seq<Group>
    decreases items.len(),
{
    if items.len() == 0 {
        Seq::empty()
    } else {
        file(grouping(items.drop_last()), items.last())
    }
}

/// All the stops of a list of groups, group after group.
pub open spec fn concat(groups: Seq<Group>) -> Seq<Item>
    decreases groups.len(),
{
    if groups.len() == 0 {
        Seq::empty()
    } else {
        concat(groups.drop_last()) + groups.last().members
    }
}

/// Identifiers strictly ascending, and every stop filed under the
/// identifier of the group that holds it.
pub open spec fn well_formed(groups: Seq<Group>) -> bool {
    &&& forall|i: int, j: int|
        0 <= i < j < groups.len() ==> (#[trigger] groups[i]).id < (#[trigger] groups[j]).id
    &&& forall|i: int, k: int|
        0 <= i < groups.len() && 0 <= k < groups[i].members.len() ==> (
        #[trigger] groups[i].members[k]).g == groups[i].id
}

/// Whether some group of the list has identifier `g`.
pub open spec fn has_group(groups: Seq<Group>, g: usize) -> bool {
    exists|i: int| 0 <= i < groups.len() && (#[trigger] groups[i]).id == g
}

/// Whether `groups` is the partition of `items` by group identifier: one
/// non-empty group for each identifier in use, identifiers ascending, each
/// group holding exactly the stops filed under its identifier, in their
/// order in `items`.
pub open spec fn is_partition_of(groups: Seq<Group>, items: Seq<Item>) -> bool {
    &&& forall|i: int, j: int|
        0 <= i < j < groups.len() ==> (#[trigger] groups[i]).id < (#[trigger] groups[j]).id
    &&& forall|i: int|
        0 <= i < groups.len() ==> (#[trigger] groups[i]).members == members_of(items, groups[i].id)
            && groups[i].members.len() > 0
    &&& forall|k: int| 0 <= k < items.len() ==> has_group(groups, (#[trigger] items[k]).g)
}

/// Filing one more stop turns the partition of a sequence into the
/// partition of the sequence with that stop appended.
proof fn lemma_file_extends(groups: Seq<Group>, items: Seq<Item>, it: Item)
    requires
        is_partition_of(groups, items),
    ensures
        is_partition_of(file(groups, it), items.push(it)),
{
    broadcast use vstd::seq_lib::group_filter_ensures;

    let g = it.g;
    let i = slot(groups, g);
    let after = file(groups, it);
    let more = items.push(it);
    lemma_slot_from(groups, g, 0);
    assert forall|h: usize| members_of(more, h) == if h == g {
        members_of(items, h).push(it)
    } else {
        members_of(items, h)
    } by {
        items.lemma_filter_push(it, carries(h));
    }
    if i < groups.len() && groups[i].id == g {
        assert forall|j: int| 0 <= j < after.len() implies (#[trigger] after[j]).members
            == members_of(more, after[j].id) && after[j].members.len() > 0 by {
            if j != i {
                assert(groups[j].id != g) by {
                    if j < i {
                        assert(groups[j].id < groups[i].id);
                    } else {
                        assert(groups[i].id < groups[j].id);
                    }
                }
            }
        }
        assert forall|k: int| 0 <= k < more.len() implies has_group(
            after,
            (#[trigger] more[k]).g,
        ) by {
            if k < items.len() {
                assert(has_group(groups, items[k].g));
                let j = choose|j: int|
                    0 <= j < groups.len() && (#[trigger] groups[j]).id == items[k].g;
                assert(after[j].id == more[k].g);
            } else {
                assert(after[i].id == more[k].g);
            }
        }
    } else {
        assert(!has_group(groups, g)) by {
            assert forall|j: int| 0 <= j < groups.len() implies (#[trigger] groups[j]).id != g by {
                if j > i {
                    assert(groups[i].id < groups[j].id);
                }
            }
        }
        assert(members_of(items, g).len() == 0) by {
            assert forall|k: int| 0 <= k < items.len() implies !carries(g)(#[trigger] items[k]) by {
                assert(has_group(groups, items[k].g));
            }
            items.lemma_all_neg_filter_empty(carries(g));
        }
        assert(members_of(more, g) =~= seq![it]);
        assert forall|a: int, b: int| 0 <= a < b < after.len() implies (#[trigger] after[a]).id < (
        #[trigger] after[b]).id by {
            let a0 = if a < i { a } else { a - 1 };
            let b0 = if b < i { b } else { b - 1 };
            if a != i && b != i {
                assert(groups[a0].id < groups[b0].id);
            } else if a == i {
                assert(after[b] == groups[b0]);
                if b0 > i {
                    assert(groups[i].id < groups[b0].id);
                }
            } else {
                assert(after[a] == groups[a0]);
            }
        }
        assert forall|j: int| 0 <= j < after.len() implies (#[trigger] after[j]).members
            == members_of(more, after[j].id) && after[j].members.len() > 0 by {
            if j != i {
                let j0 = if j < i { j } else { j - 1 };
                assert(after[j] == groups[j0]);
                assert(groups[j0].id != g);
            }
        }
        assert forall|k: int| 0 <= k < more.len() implies has_group(
            after,
            (#[trigger] more[k]).g,
        ) by {
            if k < items.len() {
                assert(has_group(groups, items[k].g));
                let j0 = choose|j: int|
                    0 <= j < groups.len() && (#[trigger] groups[j]).id == items[k].g;
                let j = if j0 < i { j0 } else { j0 + 1 };
                assert(after[j] == groups[j0]);
            } else {
                assert(after[i].id == more[k].g);
            }
        }
    }
}

/// `grouping` computes the partition by group identifier.
pub proof fn lemma_grouping_is_partition(items: Seq<Item>)
    ensures
        is_partition_of(grouping(items), items),
    decreases items.len(),
{
    if items.len() > 0 {
        lemma_grouping_is_partition(items.drop_last());
        lemma_file_extends(grouping(items.drop_last()), items.drop_last(), items.last());
        assert(items.drop_last().push(items.last()) =~= items);
    }
}

/// Joining two lists of groups joins their stops.
pub proof fn lemma_concat_add(a: Seq<Group>, b: Seq<Group>)
    ensures
        concat(a + b) == concat(a) + concat(b),
    decreases b.len(),
{
    if b.len() == 0 {
        assert(a + b =~= a);
        assert(concat(a) + concat(b) =~= concat(a));
    } else {
        lemma_concat_add(a, b.drop_last());
        assert((a + b).drop_last() =~= a + b.drop_last());
        assert(concat(a + b) =~= concat(a) + concat(b));
    }
}

/// The stops of a list of groups, split around the group at index `i`.
pub proof fn lemma_concat_around(groups: Seq<Group>, i: int)
    requires
        0 <= i < groups.len(),
    ensures
        concat(groups) == concat(groups.take(i)) + groups[i].members + concat(groups.skip(i + 1)),
{
    let head = groups.take(i);
    let tail = groups.skip(i + 1);
    assert(groups =~= head.push(groups[i]) + tail);
    lemma_concat_add(head.push(groups[i]), tail);
    assert(head.push(groups[i]).drop_last() =~= head);
}

/// Replacing the group at index `i` replaces its stops and no others.
pub proof fn lemma_concat_update(groups: Seq<Group>, i: int, with: Group)
    requires
        0 <= i < groups.len(),
    ensures
        concat(groups.update(i, with)) == concat(groups.take(i)) + with.members + concat(
            groups.skip(i + 1),
        ),
{
    let after = groups.update(i, with);
    lemma_concat_around(after, i);
    assert(after.take(i) =~= groups.take(i));
    assert(after.skip(i + 1) =~= groups.skip(i + 1));
}

/// Putting a new group at index `i` adds its stops and no others.
pub proof fn lemma_concat_insert(groups: Seq<Group>, i: int, new: Group)
    requires
        0 <= i <= groups.len(),
    ensures
        concat(groups.insert(i, new)) == concat(groups.take(i)) + new.members + concat(
            groups.skip(i),
        ),
        concat(groups) == concat(groups.take(i)) + concat(groups.skip(i)),
{
    let after = groups.insert(i, new);
    lemma_concat_around(after, i);
    assert(after.take(i) =~= groups.take(i));
    assert(after.skip(i + 1) =~= groups.skip(i));
    assert(groups =~= groups.take(i) + groups.skip(i));
    lemma_concat_add(groups.take(i), groups.skip(i));
}

/// Filing a stop adds that stop to what the groups hold, and nothing else.
pub proof fn lemma_file_contents(groups: Seq<Group>, it: Item)
    ensures
        concat(file(groups, it)).to_multiset() == concat(groups).to_multiset().insert(it),
        concat(file(groups, it)).len() == concat(groups).len() + 1,
{
    broadcast use vstd::multiset::group_multiset_axioms;

    let i = slot(groups, it.g);
    lemma_slot_from(groups, it.g, 0);
    if i < groups.len() && groups[i].id == it.g {
        let with = Group { id: it.g, members: groups[i].members.push(it) };
        let head = concat(groups.take(i));
        let tail = concat(groups.skip(i + 1));
        lemma_concat_update(groups, i, with);
        lemma_concat_around(groups, i);
        lemma_multiset_commutative(head + with.members, tail);
        lemma_multiset_commutative(head, with.members);
        lemma_multiset_commutative(head + groups[i].members, tail);
        lemma_multiset_commutative(head, groups[i].members);
        to_multiset_build(groups[i].members, it);
        assert(concat(file(groups, it)).to_multiset() =~= concat(groups).to_multiset().insert(it));
    } else {
        let new = Group { id: it.g, members: seq![it] };
        let head = concat(groups.take(i));
        let tail = concat(groups.skip(i));
        lemma_concat_insert(groups, i, new);
        lemma_multiset_commutative(head + new.members, tail);
        lemma_multiset_commutative(head, new.members);
        lemma_multiset_commutative(head, tail);
        assert(seq![it] =~= Seq::<Item>::empty().push(it));
        to_multiset_build(Seq::<Item>::empty(), it);
        assert(Seq::<Item>::empty().to_multiset() =~= Multiset::<Item>::empty()) by {
            Seq::<Item>::empty().to_multiset_ensures();
        }
        assert(concat(file(groups, it)).to_multiset() =~= concat(groups).to_multiset().insert(it));
    }
}

/// Partitioning loses nothing and invents nothing: the groups together hold
/// exactly the stops that were partitioned.
pub proof fn lemma_grouping_contents(items: Seq<Item>)
    ensures
        concat(grouping(items)).to_multiset() == items.to_multiset(),
        concat(grouping(items)).len() == items.len(),
    decreases items.len(),
{
    if items.len() == 0 {
        assert(concat(grouping(items)) =~= items);
    } else {
        lemma_grouping_contents(items.drop_last());
        lemma_file_contents(grouping(items.drop_last()), items.last());
        to_multiset_build(items.drop_last(), items.last());
        assert(items.drop_last().push(items.last()) =~= items);
    }
}

/// A filter that every element passes changes nothing.
pub proof fn lemma_filter_keeps_all(s: Seq<Item>, pred: spec_fn(Item) -> bool)
    requires
        forall|i: int| 0 <= i < s.len() ==> pred(#[trigger] s[i]),
    ensures
        s.filter(pred) == s,
    decreases s.len(),
{
    if s.len() == 0 {
        assert(s.filter(pred) =~= s) by {
            s.lemma_filter_len(pred);
        }
    } else {
        lemma_filter_keeps_all(s.drop_last(), pred);
        s.drop_last().lemma_filter_push(s.last(), pred);
        assert(s.drop_last().push(s.last()) =~= s);
    }
}

/// A filter that no element passes leaves nothing.
pub proof fn lemma_filter_drops_all(s: Seq<Item>, pred: spec_fn(Item) -> bool)
    requires
        forall|i: int| 0 <= i < s.len() ==> !pred(#[trigger] s[i]),
    ensures
        s.filter(pred) == Seq::<Item>::empty(),
{
    s.lemma_all_neg_filter_empty(pred);
    assert(s.filter(pred) =~= Seq::<Item>::empty());
}

/// The stops of a partition's group are all filed under its identifier.
pub proof fn lemma_partition_members_carry(groups: Seq<Group>, items: Seq<Item>, i: int)
    requires
        is_partition_of(groups, items),
        0 <= i < groups.len(),
    ensures
        forall|k: int|
            0 <= k < groups[i].members.len() ==> (#[trigger] groups[i].members[k]).g
                == groups[i].id,
{
    broadcast use vstd::seq_lib::group_filter_ensures;

    assert forall|k: int| 0 <= k < groups[i].members.len() implies (
    #[trigger] groups[i].members[k]).g == groups[i].id by {
        assert(groups[i].members == items.filter(carries(groups[i].id)));
        assert(carries(groups[i].id)(items.filter(carries(groups[i].id))[k]));
    }
}

/// A partition is well formed.
pub proof fn lemma_partition_well_formed(groups: Seq<Group>, items: Seq<Item>)
    requires
        is_partition_of(groups, items),
    ensures
        well_formed(groups),
{
    assert forall|i: int, k: int|
        0 <= i < groups.len() && 0 <= k < groups[i].members.len() implies (
    #[trigger] groups[i].members[k]).g == groups[i].id by {
        lemma_partition_members_carry(groups, items, i);
    }
}

/// Appending stops that all carry one identifier extends the members of
/// that group by them and leaves the members of every other group alone.
pub proof fn lemma_members_after_append(head: Seq<Item>, lap: Seq<Item>, id: usize, g: usize)
    requires
        forall|k: int| 0 <= k < lap.len() ==> (#[trigger] lap[k]).g == id,
    ensures
        id == g ==> members_of(head + lap, g) == members_of(head, g) + lap,
        id != g ==> members_of(head + lap, g) == members_of(head, g),
{
    Seq::filter_distributes_over_add(head, lap, carries(g));
    if id == g {
        lemma_filter_keeps_all(lap, carries(g));
    } else {
        lemma_filter_drops_all(lap, carries(g));
        assert(members_of(head, g) + Seq::<Item>::empty() =~= members_of(head, g));
    }
}

/// Restricted to an identifier that no group has, the joined stops of
/// well-formed groups are empty.
pub proof fn lemma_concat_without_group(groups: Seq<Group>, g: usize)
    requires
        well_formed(groups),
        !has_group(groups, g),
    ensures
        members_of(concat(groups), g) == Seq::<Item>::empty(),
    decreases groups.len(),
{
    if groups.len() == 0 {
        lemma_filter_drops_all(concat(groups), carries(g));
    } else {
        let before = groups.drop_last();
        let last = groups.last();
        lemma_well_formed_drop_last(groups);
        assert(!has_group(before, g)) by {
            if has_group(before, g) {
                let j = choose|j: int| 0 <= j < before.len() && (#[trigger] before[j]).id == g;
                assert(groups[j].id == g);
            }
        }
        assert(last.id != g) by {
            assert(groups[groups.len() - 1].id != g);
        }
        lemma_concat_without_group(before, g);
        lemma_members_after_append(concat(before), last.members, last.id, g);
    }
}

/// Restricted to the identifier of one of them, the joined stops of
/// well-formed groups are the stops of that group.
pub proof fn lemma_concat_by_group(groups: Seq<Group>, i: int)
    requires
        well_formed(groups),
        0 <= i < groups.len(),
    ensures
        members_of(concat(groups), groups[i].id) == groups[i].members,
    decreases groups.len(),
{
    let g = groups[i].id;
    let n = groups.len() - 1;
    let before = groups.drop_last();
    let last = groups.last();
    lemma_well_formed_drop_last(groups);
    lemma_members_after_append(concat(before), last.members, last.id, g);
    if i == n {
        assert(!has_group(before, g)) by {
            if has_group(before, g) {
                let j = choose|j: int| 0 <= j < before.len() && (#[trigger] before[j]).id == g;
                assert(groups[j].id < groups[n].id);
            }
        }
        lemma_concat_without_group(before, g);
        assert(Seq::<Item>::empty() + last.members =~= last.members);
    } else {
        assert(groups[i].id < groups[n].id);
        assert(before[i] == groups[i]);
        lemma_concat_by_group(before, i);
    }
}

/// Dropping the last of well-formed groups leaves well-formed groups, and
/// the stops of the last all carry its identifier.
pub proof fn lemma_well_formed_drop_last(groups: Seq<Group>)
    requires
        well_formed(groups),
        groups.len() > 0,
    ensures
        well_formed(groups.drop_last()),
        forall|k: int|
            0 <= k < groups.last().members.len() ==> (#[trigger] groups.last().members[k]).g
                == groups.last().id,
{
    let before = groups.drop_last();
    let last = groups.last();
    assert forall|i: int, j: int| 0 <= i < j < before.len() implies (#[trigger] before[i]).id < (
    #[trigger] before[j]).id by {
        assert(groups[i].id < groups[j].id);
    }
    assert forall|i: int, k: int|
        0 <= i < before.len() && 0 <= k < before[i].members.len() implies (
    #[trigger] before[i].members[k]).g == before[i].id by {
        assert(groups[i].members[k].g == groups[i].id);
    }
    assert forall|k: int| 0 <= k < last.members.len() implies (#[trigger] last.members[k]).g
        == last.id by {
        assert(groups[groups.len() - 1].members[k].g == groups[groups.len() - 1].id);
    }
}

/// Group identifiers never fall along the sequence.
pub open spec fn ascending_by_group(items: Seq<Item>) -> bool {
    forall|k: int, l: int|
        0 <= k < l < items.len() ==> (#[trigger] items[k]).g <= (#[trigger] items[l]).g
}

/// No stop of the sequence is filed under an identifier above `g`.
pub open spec fn filed_up_to(items: Seq<Item>, g: usize) -> bool {
    forall|k: int| 0 <= k < items.len() ==> (#[trigger] items[k]).g <= g
}

/// The joined stops of well-formed groups run through the identifiers in
/// ascending order and stay at or below the last group's.
pub proof fn lemma_concat_ascending(groups: Seq<Group>)
    requires
        well_formed(groups),
    ensures
        ascending_by_group(concat(groups)),
        groups.len() > 0 ==> filed_up_to(concat(groups), groups.last().id),
        groups.len() == 0 ==> concat(groups).len() == 0,
    decreases groups.len(),
{
    if groups.len() > 0 {
        let before = groups.drop_last();
        let last = groups.last();
        lemma_well_formed_drop_last(groups);
        lemma_concat_ascending(before);
        let all = concat(groups);
        let cut = concat(before).len();
        assert forall|k: int| 0 <= k < all.len() implies (#[trigger] all[k]).g <= last.id by {
            if k < cut {
                assert(all[k] == concat(before)[k]);
                assert(before.last().id == groups[groups.len() - 2].id);
                assert(groups[groups.len() - 2].id < groups[groups.len() - 1].id);
            } else {
                assert(all[k] == last.members[k - cut]);
            }
        }
        assert forall|k: int, l: int| 0 <= k < l < all.len() implies (#[trigger] all[k]).g <= (
        #[trigger] all[l]).g by {
            if l < cut {
                assert(all[k] == concat(before)[k]);
                assert(all[l] == concat(before)[l]);
            } else {
                assert(all[l] == last.members[l - cut]);
                if k >= cut {
                    assert(all[k] == last.members[k - cut]);
                }
            }
        }
    }
}

/// Finds the place of identifier `g` among the buckets.
fn find_slot(parts: &Vec<Bucket>, g: usize) -> (i: usize)
    ensures
        i == slot(groups_of(parts@), g),
{
    let ghost groups = groups_of(parts@);
    let mut i: usize = 0;
    while i < parts.len() && parts[i].id < g
        invariant
            0 <= i <= parts.len(),
            groups == groups_of(parts@),
            slot(groups, g) == slot_from(groups, g, i as int),
        decreases parts.len() - i,
    {
        i += 1;
    }
    i
}

/// Partitions stops by group identifier.
///
/// The buckets come in ascending order of identifier, one for each
/// identifier in use, and each holds its stops in the order of `items`.
pub fn partition(items: Vec<Item>) -> (parts: Vec<Bucket>)
    ensures
        groups_of(parts@) == grouping(items@),
        is_partition_of(groups_of(parts@), items@),
{
    let mut parts: Vec<Bucket> = Vec::new();
    assert(groups_of(parts@) =~= grouping(items@.take(0)));
    for it in iter: items
        invariant
            iter.seq() == items@,
            groups_of(parts@) == grouping(items@.take(iter.index() as int)),
    {
        let ghost done = items@.take(iter.index() as int);
        let ghost before = groups_of(parts@);
        assert(items@.take(iter.index() + 1).drop_last() =~= done);
        proof {
            lemma_slot_from(before, it.g, 0);
        }
        let i = find_slot(&parts, it.g);
        if i < parts.len() && parts[i].id == it.g {
            parts[i].members.push(it);
            assert(groups_of(parts@) =~= file(before, it));
        } else {
            let id = it.g;
            let mut members: Vec<Item> = Vec::new();
            members.push(it);
            parts.insert(i, Bucket { id, members });
            assert(groups_of(parts@) =~= file(before, it));
        }
    }
    proof {
        assert(items@.take(items@.len() as int) =~= items@);
        lemma_grouping_is_partition(items@);
    }
    parts
}

/// Joins the buckets back into one sequence, bucket after bucket.
pub fn flatten(parts: Vec<Bucket>) -> (items: Vec<Item>)
    ensures
        items@ == concat(groups_of(parts@)),
{
    let mut items: Vec<Item> = Vec::new();
    let ghost groups = groups_of(parts@);
    assert(groups.take(0) =~= Seq::<Group>::empty());
    for part in iter: parts
        invariant
            iter.seq() == parts@,
            groups == groups_of(parts@),
            items@ == concat(groups.take(iter.index() as int)),
    {
        let mut members = part.members;
        assert(groups.take(iter.index() + 1).drop_last() =~= groups.take(iter.index() as int));
        assert(groups.take(iter.index() + 1).last().members == members@);
        items.append(&mut members);
    }
    assert(groups.take(groups.len() as int) =~= groups);
    items
}

} // verus!

//! The stacking order of groups.
//!
//! An ordering list names the groups from the bottom of the stack to the
//! top. Ordering gives every group the position of its name in that list as
//! its rank and returns the groups by ascending rank. The list and the
//! groups must name the same things, each exactly once.

use vstd::prelude::*;
use crate::layer::LayerGroup;

verus! {

/// Why groups and an ordering list do not fit together.
#[derive(Clone, Copy, Debug, PartialEq, Eq, Structural)]
pub enum OrderingError {
    /// The list entry at `position` repeats an earlier entry.
    DuplicateName { position: usize },
    /// The group at index `group` has a name that the list lacks.
    UnlistedGroup { group: usize },
    /// The group at index `group` has the name of an earlier group.
    DuplicateGroup { group: usize },
    /// The list entry at `position` names no group.
    MissingGroup { position: usize },
}

/// The entries of an ordering list as character sequences.
pub open spec fn texts(names: Seq<String>) -> Seq<Seq<char>> {
    Seq::new(names.len(), |i: int| names[i]@)
}

/// The names of a run of groups, in order.
pub open spec fn names_of(groups: Seq<LayerGroup>) -> Seq<Seq<char>> {
    Seq::new(groups.len(), |i: int| groups[i].spec_name())
}

/// Entry `i` equals an entry before it.
pub open spec fn repeats(names: Seq<Seq<char>>, i: int) -> bool {
    exists|k: int| 0 <= k < i && names[k] == names[i]
}

/// `i` is the first entry that equals an entry before it.
pub open spec fn first_repeat(names: Seq<Seq<char>>, i: int) -> bool {
    &&& 0 <= i < names.len()
    &&& repeats(names, i)
    &&& forall|k: int| 0 <= k < i ==> !repeats(names, k)
}

/// `i` is the first entry of `names` that does not occur in `others`.
pub open spec fn first_absent(names: Seq<Seq<char>>, others: Seq<Seq<char>>, i: int) -> bool {
    &&& 0 <= i < names.len()
    &&& !others.contains(names[i])
    &&& forall|k: int| 0 <= k < i ==> others.contains(#[trigger] names[k])
}

/// Every entry of `names` occurs in `others`.
pub open spec fn all_among(names: Seq<Seq<char>>, others: Seq<Seq<char>>) -> bool {
    forall|k: int| 0 <= k < names.len() ==> others.contains(#[trigger] names[k])
}

/// No entry equals an entry before it.
pub open spec fn distinct(names: Seq<Seq<char>>) -> bool {
    forall|k: int| 0 <= k < names.len() ==> !repeats(names, k)
}

/// The groups and the list name the same things, each exactly once.
pub open spec fn consistent(groups: Seq<Seq<char>>, order: Seq<Seq<char>>) -> bool {
    &&& distinct(order)
    &&& distinct(groups)
    &&& all_among(groups, order)
    &&& all_among(order, groups)
}

/// `fault` names the first fault between the names of the groups and the
/// list: a repeated list entry, else a group the list lacks, else a
/// repeated group name, else a list entry without a group.
pub open spec fn misordered(
    groups: Seq<Seq<char>>,
    order: Seq<Seq<char>>,
    fault: OrderingError,
) -> bool {
    match fault {
        OrderingError::DuplicateName { position } => first_repeat(order, position as int),
        OrderingError::UnlistedGroup { group } => distinct(order) && first_absent(
            groups,
            order,
            group as int,
        ),
        OrderingError::DuplicateGroup { group } => distinct(order) && all_among(groups, order)
            && first_repeat(groups, group as int),
        OrderingError::MissingGroup { position } => distinct(order) && all_among(groups, order)
            && distinct(groups) && first_absent(order, groups, position as int),
    }
}

/// Index `j` is found in one of two lists of indices.
spec fn held(source: Seq<int>, taken: Seq<int>, j: int) -> bool {
    (exists|k: int| 0 <= k < source.len() && source[k] == j) || (exists|p: int|
        0 <= p < taken.len() && taken[p] == j)
}

/// `name` occurs in the list at position `from` or later.
spec fn listed_from(listed: Seq<Seq<char>>, from: int, name: Seq<char>) -> bool {
    exists|p: int| from <= p < listed.len() && listed[p] == name
}

/// The first of `names[..upto]` that equals `name`.
pub(crate) fn find_name(names: &Vec<String>, name: &String, upto: usize) -> (found: Option<usize>)
    requires
        upto <= names@.len(),
    ensures
        found matches Some(k) ==> k < upto && names@[k as int]@ == name@ && forall|m: int|
            0 <= m < k ==> names@[m]@ != name@,
        found is None ==> forall|m: int| 0 <= m < upto ==> names@[m]@ != name@,
{
    let mut k: usize = 0;
    while k < upto
        invariant
            k <= upto <= names@.len(),
            forall|m: int| 0 <= m < k ==> names@[m]@ != name@,
        decreases upto - k,
    {
        if names[k] == *name {
            return Some(k);
        }
        k = k + 1;
    }
    None
}

/// The first of `groups[..upto]` whose name is `name`.
fn find_group(groups: &Vec<LayerGroup>, name: &String, upto: usize) -> (found: Option<usize>)
    requires
        upto <= groups@.len(),
    ensures
        found matches Some(k) ==> k < upto && groups@[k as int].spec_name() == name@
            && forall|m: int| 0 <= m < k ==> groups@[m].spec_name() != name@,
        found is None ==> forall|m: int| 0 <= m < upto ==> groups@[m].spec_name() != name@,
{
    let mut k: usize = 0;
    while k < upto
        invariant
            k <= upto <= groups@.len(),
            forall|m: int| 0 <= m < k ==> groups@[m].spec_name() != name@,
        decreases upto - k,
    {
        if *groups[k].name() == *name {
            return Some(k);
        }
        k = k + 1;
    }
    None
}

/// Checks the list and the groups for the three faults that can be found
/// without moving a group: a repeated list entry, a group the list lacks,
/// and a repeated group name, in that order.
fn check_names(groups: &Vec<LayerGroup>, order: &Vec<String>) -> (out: Result<(), OrderingError>)
    ensures
        match out {
            Ok(()) => distinct(texts(order@)) && distinct(names_of(groups@)) && all_among(
                names_of(groups@),
                texts(order@),
            ),
            Err(fault) => !(fault is MissingGroup) && misordered(
                names_of(groups@),
                texts(order@),
                fault,
            ),
        },
{
    let ghost listed = texts(order@);
    let ghost named = names_of(groups@);
    let mut i: usize = 0;
    while i < order.len()
        invariant
            i <= order@.len(),
            listed == texts(order@),
            forall|k: int| 0 <= k < i ==> !repeats(listed, k),
        decreases order@.len() - i,
    {
        match find_name(order, &order[i], i) {
            Some(k) => {
                assert(listed[k as int] == listed[i as int]);
                return Err(OrderingError::DuplicateName { position: i });
            },
            None => {
                assert forall|k: int| 0 <= k < i implies listed[k] != listed[i as int] by {
                    assert(listed[k] == order@[k]@);
                }
            },
        }
        i = i + 1;
    }
    let mut j: usize = 0;
    while j < groups.len()
        invariant
            j <= groups@.len(),
            listed == texts(order@),
            named == names_of(groups@),
            distinct(listed),
            forall|k: int| 0 <= k < j ==> listed.contains(#[trigger] named[k]),
        decreases groups@.len() - j,
    {
        match find_name(order, groups[j].name(), order.len()) {
            Some(k) => {
                assert(listed[k as int] == named[j as int]);
            },
            None => {
                assert forall|m: int| 0 <= m < listed.len() implies listed[m] != named[j as int] by {
                    assert(listed[m] == order@[m]@);
                }
                return Err(OrderingError::UnlistedGroup { group: j });
            },
        }
        j = j + 1;
    }
    let mut j: usize = 0;
    while j < groups.len()
        invariant
            j <= groups@.len(),
            listed == texts(order@),
            named == names_of(groups@),
            distinct(listed),
            all_among(named, listed),
            forall|k: int| 0 <= k < j ==> !repeats(named, k),
        decreases groups@.len() - j,
    {
        match find_group(groups, groups[j].name(), j) {
            Some(k) => {
                assert(named[k as int] == named[j as int]);
                return Err(OrderingError::DuplicateGroup { group: j });
            },
            None => {
                assert forall|k: int| 0 <= k < j implies named[k] != named[j as int] by {
                    assert(named[k] == groups@[k].spec_name());
                }
            },
        }
        j = j + 1;
    }
    Ok(())
}

/// Ranks the groups by the positions of their names in `order` and returns
/// them by ascending rank.
///
/// Succeeds exactly when the groups and the list are consistent. Otherwise
/// the error names the first fault, looking for a repeated list entry, then
/// a group the list lacks, then a repeated group name, then a list entry
/// without a group.
pub fn order_groups(groups: Vec<LayerGroup>, order: &Vec<String>) -> (out: Result<
    Vec<LayerGroup>,
    OrderingError,
>)
    ensures
        out is Ok <==> consistent(names_of(groups@), texts(order@)),
        match out {
            Ok(sorted) => {
                &&& sorted@.len() == groups@.len()
                &&& sorted@.len() == order@.len()
                &&& forall|i: int|
                    0 <= i < sorted@.len() ==> (#[trigger] sorted@[i]).spec_rank() == i
                        && sorted@[i].spec_name() == order@[i]@
                &&& forall|i: int, j: int|
                    0 <= i < sorted@.len() && 0 <= j < groups@.len() && groups@[j].spec_name()
                        == order@[i]@ ==> (#[trigger] sorted@[i]).same_content(
                        #[trigger] &groups@[j],
                    )
            },
            Err(fault) => misordered(names_of(groups@), texts(order@), fault),
        },
{
    let ghost listed = texts(order@);
    let ghost named = names_of(groups@);
    let ghost given = groups@;
    match check_names(&groups, order) {
        Err(fault) => {
            return Err(fault);
        },
        Ok(()) => {},
    }
    let mut remaining = groups;
    let mut sorted: Vec<LayerGroup> = Vec::new();
    // For each group still in `remaining`, its index in `given`; for each
    // group already in `sorted`, likewise.
    let ghost mut source: Seq<int> = Seq::new(given.len(), |k: int| k);
    let ghost mut taken: Seq<int> = Seq::empty();
    proof {
        assert forall|k: int| 0 <= k < source.len() implies #[trigger] listed_from(
            listed,
            0,
            named[source[k]],
        ) by {
            assert(listed.contains(named[k]));
        }
        assert forall|j: int| 0 <= j < given.len() implies #[trigger] held(source, taken, j) by {
            assert(source[j] == j);
        }
    }
    let mut i: usize = 0;
    while i < order.len()
        invariant
            i <= order@.len(),
            listed == texts(order@),
            named == names_of(given),
            distinct(listed),
            distinct(named),
            all_among(named, listed),
            sorted@.len() == i,
            taken.len() == i,
            source.len() == remaining@.len(),
            remaining@.len() + i == given.len(),
            forall|k: int|
                0 <= k < source.len() ==> 0 <= #[trigger] source[k] < given.len() && remaining@[k]
                    == given[source[k]],
            forall|k: int, m: int| 0 <= k < m < source.len() ==> source[k] < source[m],
            forall|k: int|
                0 <= k < source.len() ==> #[trigger] listed_from(listed, i as int, named[source[k]]),
            given == groups@,
            forall|p: int|
                0 <= p < i ==> 0 <= #[trigger] taken[p] < given.len() && named[taken[p]]
                    == listed[p] && sorted@[p].same_content(&given[taken[p]])
                    && sorted@[p].spec_rank() == p,
            forall|j: int| 0 <= j < given.len() ==> #[trigger] held(source, taken, j),
        decreases order@.len() - i,
    {
        match find_group(&remaining, &order[i], remaining.len()) {
            None => {
                proof {
                    assert forall|j: int| 0 <= j < named.len() implies named[j] != listed[i as int] by {
                        assert(held(source, taken, j));
                        if exists|k: int| 0 <= k < source.len() && source[k] == j {
                            let k = choose|k: int| 0 <= k < source.len() && source[k] == j;
                            assert(remaining@[k].spec_name() != order@[i as int]@);
                        } else {
                            let p = choose|p: int| 0 <= p < taken.len() && taken[p] == j;
                            assert(named[j] == listed[p]);
                            assert(!repeats(listed, i as int));
                        }
                    }
                    assert forall|p: int| 0 <= p < i implies named.contains(
                        #[trigger] listed[p],
                    ) by {
                        assert(named[taken[p]] == listed[p]);
                    }
                    assert(!named.contains(listed[i as int]));
                    assert(!all_among(listed, named));
                }
                return Err(OrderingError::MissingGroup { position: i });
            },
            Some(at) => {
                let ghost before = remaining@;
                let ghost placed = sorted@;
                let ghost from = source[at as int];
                let group = remaining.remove(at);
                let ranked = group.ranked(i);
                assert(group == given[from]);
                assert(ranked.same_content(&given[from]));
                sorted.push(ranked);
                proof {
                    let old_source = source;
                    let old_taken = taken;
                    taken = taken.push(from);
                    source = source.remove(at as int);
                    assert(named[from] == listed[i as int]);
                    assert forall|p: int| 0 <= p < i + 1 implies 0 <= #[trigger] taken[p]
                        < given.len() && named[taken[p]] == listed[p] && sorted@[p].same_content(
                        &given[taken[p]],
                    ) && sorted@[p].spec_rank() == p by {
                        if p < i {
                            assert(taken[p] == old_taken[p]);
                            assert(sorted@[p] == placed[p]);
                        } else {
                            assert(taken[p] == from);
                            assert(sorted@[p] == ranked);
                        }
                    }
                    assert forall|k: int| 0 <= k < source.len() implies 0 <= #[trigger] source[k]
                        < given.len() && remaining@[k] == given[source[k]] by {
                        let was = if k < at { k } else { k + 1 };
                        assert(source[k] == old_source[was]);
                        assert(remaining@[k] == before[was]);
                    }
                    assert forall|k: int, m: int| 0 <= k < m < source.len() implies source[k]
                        < source[m] by {
                        let was_k = if k < at { k } else { k + 1 };
                        let was_m = if m < at { m } else { m + 1 };
                        assert(source[k] == old_source[was_k]);
                        assert(source[m] == old_source[was_m]);
                    }
                    assert forall|k: int| 0 <= k < source.len() implies #[trigger] listed_from(
                        listed,
                        i + 1,
                        named[source[k]],
                    ) by {
                        let was = if k < at { k } else { k + 1 };
                        assert(source[k] == old_source[was]);
                        assert(listed_from(listed, i as int, named[old_source[was]]));
                        let p = choose|p: int|
                            i <= p < listed.len() && listed[p] == named[old_source[was]];
                        if p == i {
                            // Two different groups would share the name at position `i`.
                            let lo = if from < old_source[was] { from } else { old_source[was] };
                            let hi = if from < old_source[was] { old_source[was] } else { from };
                            assert(named[lo] == named[hi]);
                            assert(repeats(named, hi));
                        }
                        assert(listed[p] == named[source[k]]);
                    }
                    assert forall|j: int| 0 <= j < given.len() implies #[trigger] held(
                        source,
                        taken,
                        j,
                    ) by {
                        assert(held(old_source, old_taken, j));
                                                if exists|k: int| 0 <= k < old_source.len() && old_source[k] == j {
                            let k = choose|k: int| 0 <= k < old_source.len() && old_source[k] == j;
                            if k == at {
                                assert(taken[i as int] == j);
                            } else {
                                let now = if k < at { k } else { k - 1 };
                                assert(source[now] == j);
                            }
                        } else {
                            let p = choose|p: int| 0 <= p < old_taken.len() && old_taken[p] == j;
                            assert(taken[p] == j);
                        }
                    }
                }
            },
        }
        i = i + 1;
    }
    proof {
        if remaining@.len() > 0 {
            assert(listed_from(listed, i as int, named[source[0]]));
        }
        assert forall|p: int| 0 <= p < listed.len() implies named.contains(#[trigger] listed[p]) by {
            assert(named[taken[p]] == listed[p]);
        }
        assert forall|p: int, j: int|
            0 <= p < sorted@.len() && 0 <= j < given.len() && given[j].spec_name()
                == order@[p]@ implies (#[trigger] sorted@[p]).same_content(
            #[trigger] &given[j],
        ) by {
            let t = taken[p];
            assert(named[t] == listed[p]);
            assert(named[j] == listed[p]);
            if t != j {
                let lo = if t < j { t } else { j };
                let hi = if t < j { j } else { t };
                assert(named[lo] == named[hi]);
                assert(repeats(named, hi));
            }
        }
        assert forall|p: int| 0 <= p < sorted@.len() implies (#[trigger] sorted@[p]).spec_rank()
            == p && sorted@[p].spec_name() == order@[p]@ by {
            assert(named[taken[p]] == listed[p]);
        }
    }
    Ok(sorted)
}

} // verus!

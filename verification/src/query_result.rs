//! Query results, grouped by the kind of search that found them.

use vstd::prelude::*;

verus! {

/// The kind of search that found a result.
#[derive(PartialEq, Eq, Structural, Clone, Copy, Debug, Hash)]
pub enum ResultType {
    TfIdf,
    Vector,
    Bm25,
}

/// The result types of a list of groups.
pub open spec fn group_types<T>(groups: Seq<(ResultType, Vec<T>)>) -> Seq<ResultType> {
    groups.map_values(|g: (ResultType, Vec<T>)| g.0)
}

/// The results of each result type that a list of groups holds.
pub open spec fn groups_map<T>(groups: Seq<(ResultType, Vec<T>)>) -> Map<ResultType, Seq<T>>
    decreases groups.len(),
{
    if groups.len() == 0 {
        Map::empty()
    } else {
        groups_map(groups.drop_last()).insert(groups.last().0, groups.last().1@)
    }
}

/// Results of a query, kept per result type in the order they were added.
pub struct QueryResult<T> {
    results: Vec<(ResultType, Vec<T>)>,
}

impl<T> QueryResult<T> {
    /// Each result type has one group.
    #[verifier::type_invariant]
    spec fn one_group_per_type(self) -> bool {
        group_types(self.results@).no_duplicates()
    }

    pub fn new() -> (r: Self)
        ensures
            r@ == Map::<ResultType, Seq<T>>::empty(),
    {
        QueryResult { results: Vec::new() }
    }

    /// Add one result of `result_type` after those added before.
    pub fn add(&mut self, result_type: ResultType, item: T)
        ensures
            final(self)@ == view_after_add(old(self)@, result_type, item),
    {
        proof {
            use_type_invariant(&*self);
        }
        let mut list: Vec<T> = Vec::new();
        list.push(item);
        assert(list@ == seq![item]);
        let mut results: Vec<(ResultType, Vec<T>)> = Vec::new();
        std::mem::swap(&mut results, &mut self.results);
        append_group(&mut results, result_type, list);
        self.results = results;
        assert(old(self)@.contains_key(result_type) ==> old(self)@[result_type] + seq![item]
            == old(self)@[result_type].push(item));
    }

    /// Add the results of `list`, in order, after the results of
    /// `result_type` added before.
    pub fn add_vec(&mut self, result_type: ResultType, list: &Vec<T>)
        where
            T: Copy,
        ensures
            final(self)@ == old(self)@.insert(
                result_type,
                if old(self)@.contains_key(result_type) {
                    old(self)@[result_type] + list@
                } else {
                    list@
                },
            ),
    {
        proof {
            use_type_invariant(&*self);
        }
        let mut copy: Vec<T> = Vec::new();
        let n = list.len();
        let mut i: usize = 0;
        while i < n
            invariant
                n == list.len(),
                i <= n,
                copy@ == list@.take(i as int),
            decreases n - i,
        {
            copy.push(list[i]);
            i = i + 1;
        }
        assert(list@.take(n as int) == list@);
        let mut results: Vec<(ResultType, Vec<T>)> = Vec::new();
        std::mem::swap(&mut results, &mut self.results);
        append_group(&mut results, result_type, copy);
        self.results = results;
    }

    /// The groups of results, one per result type that has been added.
    pub fn into_groups(self) -> (r: Vec<(ResultType, Vec<T>)>)
        ensures
            group_types(r@).no_duplicates(),
            groups_map(r@) == self@,
    {
        proof {
            use_type_invariant(&self);
        }
        self.results
    }
}

impl<T> View for QueryResult<T> {
    type V = Map<ResultType, Seq<T>>;

    /// The results of each result type that has been added.
    closed spec fn view(&self) -> Map<ResultType, Seq<T>> {
        groups_map(self.results@)
    }
}

/// The position of the group of `result_type` in `groups`, if it has one.
fn find<T>(groups: &Vec<(ResultType, Vec<T>)>, result_type: ResultType) -> (r: Option<usize>)
    ensures
        match r {
            Some(j) => j < groups.len() && groups@[j as int].0 == result_type,
            None => !group_types(groups@).contains(result_type),
        },
{
    let n = groups.len();
    let mut i: usize = 0;
    while i < n
        invariant
            n == groups.len(),
            i <= n,
            forall|q: int| 0 <= q < i ==> groups@[q].0 != result_type,
        decreases n - i,
    {
        if groups[i].0 == result_type {
            return Some(i);
        }
        i = i + 1;
    }
    assert forall|q: int| 0 <= q < group_types(groups@).len() implies group_types(groups@)[q] != result_type by {
        assert(group_types(groups@)[q] == groups@[q].0);
    }
    None
}

/// Append `items` to the group of `result_type` in `groups`, creating the
/// group if needed.
fn append_group<T>(groups: &mut Vec<(ResultType, Vec<T>)>, result_type: ResultType, items: Vec<T>)
    requires
        group_types(old(groups)@).no_duplicates(),
    ensures
        group_types(final(groups)@).no_duplicates(),
        groups_map(final(groups)@) == groups_map(old(groups)@).insert(
            result_type,
            if groups_map(old(groups)@).contains_key(result_type) {
                groups_map(old(groups)@)[result_type] + items@
            } else {
                items@
            },
        ),
{
    proof {
        lemma_groups_map_keys(groups@);
    }
    match find(groups, result_type) {
        Some(j) => {
            let ghost before = groups@;
            let mut items = items;
            let group = &mut groups[j];
            group.1.append(&mut items);
            proof {
                assert(group_types(groups@) == group_types(before));
                lemma_groups_map_update(before, j as int, groups@[j as int].1);
                assert(groups@ == before.update(j as int, (result_type, groups@[j as int].1)));
            }
        },
        None => {
            let ghost before = groups@;
            groups.push((result_type, items));
            proof {
                assert(groups@.drop_last() == before);
                assert(group_types(groups@) == group_types(before).push(result_type));
            }
        },
    }
}

/// Lemma: the result types of a list of groups are the keys of its map.
proof fn lemma_groups_map_keys<T>(groups: Seq<(ResultType, Vec<T>)>)
    ensures
        forall|t: ResultType| #[trigger] groups_map(groups).contains_key(t) <==> group_types(groups).contains(t),
    decreases groups.len(),
{
    if groups.len() > 0 {
        lemma_groups_map_keys(groups.drop_last());
        assert(group_types(groups).drop_last() == group_types(groups.drop_last()));
        assert(group_types(groups)[groups.len() - 1] == groups.last().0);
        assert forall|t: ResultType| #[trigger] groups_map(groups).contains_key(t) <==> group_types(groups).contains(t) by {
            assert(groups_map(groups.drop_last()).contains_key(t) <==> group_types(groups.drop_last()).contains(t));
            if group_types(groups.drop_last()).contains(t) {
                let q = choose|q: int| 0 <= q < group_types(groups.drop_last()).len() && group_types(groups.drop_last())[q] == t;
                assert(group_types(groups)[q] == t);
            }
            if group_types(groups).contains(t) && t != groups.last().0 {
                let q = choose|q: int| 0 <= q < group_types(groups).len() && group_types(groups)[q] == t;
                assert(q < groups.len() - 1);
                assert(group_types(groups.drop_last())[q] == t);
            }
        }
    }
}

/// The results after one result `item` of `t` is added to `v`.
pub open spec fn view_after_add<T>(v: Map<ResultType, Seq<T>>, t: ResultType, item: T) -> Map<ResultType, Seq<T>> {
    v.insert(
        t,
        if v.contains_key(t) {
            v[t].push(item)
        } else {
            seq![item]
        },
    )
}

/// Law: adding one result of `t` puts it after the results of `t` added
/// before and leaves the results of every other type as they were.
pub proof fn law_add_appends<T>(v: Map<ResultType, Seq<T>>, t: ResultType, item: T)
    ensures
        view_after_add(v, t, item).contains_key(t),
        view_after_add(v, t, item)[t].last() == item,
        view_after_add(v, t, item)[t].drop_last() == (if v.contains_key(t) {
            v[t]
        } else {
            Seq::<T>::empty()
        }),
        forall|u: ResultType|
            u != t ==> (#[trigger] view_after_add(v, t, item).contains_key(u) == v.contains_key(u)) && (
            v.contains_key(u) ==> view_after_add(v, t, item)[u] == v[u]),
{
    if v.contains_key(t) {
        assert(v[t].push(item).drop_last() == v[t]);
    } else {
        assert(seq![item].drop_last() == Seq::<T>::empty());
    }
}

/// The results after the items of `items` are added to `v` one by one.
pub open spec fn view_after_adds<T>(v: Map<ResultType, Seq<T>>, t: ResultType, items: Seq<T>) -> Map<
    ResultType,
    Seq<T>,
>
    decreases items.len(),
{
    if items.len() == 0 {
        v
    } else {
        view_after_add(view_after_adds(v, t, items.drop_last()), t, items.last())
    }
}

/// Law: adding a non-empty list of results of one type at once is adding
/// its items one by one, in order. (An empty list differs: it gives its
/// type an empty group where it had none.)
pub proof fn law_add_vec_is_adds<T>(v: Map<ResultType, Seq<T>>, t: ResultType, items: Seq<T>)
    requires
        items.len() > 0,
    ensures
        view_after_adds(v, t, items) == v.insert(
            t,
            if v.contains_key(t) {
                v[t] + items
            } else {
                items
            },
        ),
    decreases items.len(),
{
    let dl = items.drop_last();
    if dl.len() == 0 {
        assert(view_after_adds(v, t, dl) == v);
        if v.contains_key(t) {
            assert(v[t].push(items.last()) =~= v[t] + items);
        } else {
            assert(seq![items.last()] =~= items);
        }
    } else {
        law_add_vec_is_adds(v, t, dl);
        if v.contains_key(t) {
            assert((v[t] + dl).push(items.last()) =~= v[t] + items);
        } else {
            assert(dl.push(items.last()) =~= items);
        }
    }
    assert(view_after_adds(v, t, items) =~= v.insert(
        t,
        if v.contains_key(t) {
            v[t] + items
        } else {
            items
        },
    ));
}

/// Lemma: in a list of groups with distinct types, the map gives each
/// group's items to its type, and replacing the items of one group replaces
/// that entry of the map.
proof fn lemma_groups_map_update<T>(groups: Seq<(ResultType, Vec<T>)>, j: int, w: Vec<T>)
    requires
        group_types(groups).no_duplicates(),
        0 <= j < groups.len(),
    ensures
        groups_map(groups).contains_key(groups[j].0),
        groups_map(groups)[groups[j].0] == groups[j].1@,
        groups_map(groups.update(j, (groups[j].0, w))) == groups_map(groups).insert(groups[j].0, w@),
    decreases groups.len(),
{
    let last = groups.len() - 1;
    let up = groups.update(j, (groups[j].0, w));
    if j == last {
        assert(up.drop_last() == groups.drop_last());
        assert(groups_map(up) =~= groups_map(groups).insert(groups[j].0, w@));
    } else {
        let rest = groups.drop_last();
        assert(group_types(rest) == group_types(groups).drop_last());
        assert(group_types(groups)[j] == groups[j].0);
        assert(group_types(groups)[last] == groups[last].0);
        assert(groups[j].0 != groups[last].0);
        lemma_groups_map_update(rest, j, w);
        assert(up.drop_last() == rest.update(j, (rest[j].0, w)));
        assert(groups_map(up) =~= groups_map(groups).insert(groups[j].0, w@));
    }
}

} // verus!

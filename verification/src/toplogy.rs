use vstd::prelude::*;

use crate::table::{find_entry, first_named, names};
use crate::{ResponsePayload, Topology};

verus! {

broadcast use vstd::string::group_string_axioms;

/// The contents of a list of strings.
pub open spec fn views(list: Seq<String>) -> Seq<Seq<char>> {
    list.map_values(|s: String| s@)
}

/// `list` with every occurrence of `name` left out.
pub open spec fn without_name(list: Seq<Seq<char>>, name: Seq<char>) -> Seq<Seq<char>>
    decreases list.len(),
{
    if list.len() == 0 {
        list
    } else {
        let rest = without_name(list.drop_last(), name);
        if list.last() == name {
            rest
        } else {
            rest.push(list.last())
        }
    }
}

/// Leaving a name out keeps only names of the list, and never that name.
pub proof fn law_without_name(list: Seq<Seq<char>>, name: Seq<char>)
    ensures
        !without_name(list, name).contains(name),
        forall|x: Seq<char>| #[trigger] without_name(list, name).contains(x) ==> list.contains(x),
    decreases list.len(),
{
    if list.len() > 0 {
        let init = list.drop_last();
        law_without_name(init, name);
        let rest = without_name(init, name);
        assert forall|x: Seq<char>| #[trigger] without_name(list, name).contains(x) implies list.contains(
            x,
        ) by {
            let k = choose|k: int|
                0 <= k < without_name(list, name).len() && without_name(list, name)[k] == x;
            if k < rest.len() {
                assert(rest[k] == x);
                assert(rest.contains(x));
                let j = choose|j: int| 0 <= j < init.len() && init[j] == x;
                assert(list[j] == x);
            } else {
                assert(list[list.len() - 1] == x);
            }
        }
        if without_name(list, name).contains(name) {
            let k = choose|k: int|
                0 <= k < without_name(list, name).len() && without_name(list, name)[k] == name;
            if k < rest.len() {
                assert(rest[k] == name);
            }
        }
    }
}

/// Leaving a name out keeps every other name of the list, in order.
pub proof fn law_without_name_keeps_the_rest(list: Seq<Seq<char>>, name: Seq<char>)
    ensures
        without_name(list, name) == list.filter(|x: Seq<char>| x != name),
        forall|x: Seq<char>|
            #[trigger] without_name(list, name).contains(x) <==> list.contains(x) && x != name,
    decreases list.len(),
{
    let pred = |x: Seq<char>| x != name;
    reveal(Seq::filter);
    if list.len() > 0 {
        law_without_name_keeps_the_rest(list.drop_last(), name);
    }
    assert(without_name(list, name) == list.filter(pred));
    broadcast use vstd::seq_lib::group_filter_ensures;
    assert forall|x: Seq<char>|
        #[trigger] without_name(list, name).contains(x) <==> list.contains(x) && x != name by {
        if list.filter(pred).contains(x) {
            list.lemma_filter_contains_rev(pred, x);
            let k = choose|k: int| 0 <= k < list.filter(pred).len() && list.filter(pred)[k] == x;
            assert(pred(list.filter(pred)[k]));
        }
        if list.contains(x) && x != name {
            let k = choose|k: int| 0 <= k < list.len() && list[k] == x;
            list.lemma_filter_contains(pred, k);
        }
    }
}

/// The neighbours that a table lists for `node`: those of its first entry
/// named `node`, or none.
pub open spec fn table_neighbours(entries: Seq<(String, Vec<String>)>, node: Seq<char>) -> Seq<
    Seq<char>,
> {
    match first_named(names(entries), node) {
        Some(i) => views(entries[i].1@),
        None => Seq::empty(),
    }
}

/// Each node of the table has one entry.
pub open spec fn distinct_names(entries: Seq<(String, Vec<String>)>) -> bool {
    names(entries).no_duplicates()
}

/// Two tables list the same nodes with the same neighbours, entry by entry.
pub open spec fn same_table(a: Seq<(String, Vec<String>)>, b: Seq<(String, Vec<String>)>) -> bool {
    &&& a.len() == b.len()
    &&& forall|i: int| 0 <= i < a.len() ==> (#[trigger] a[i]).0 == b[i].0 && a[i].1@ == b[i].1@
}

impl Topology {
    /// The neighbours that this topology gives `node`.
    pub open spec fn neighbours(&self, node: Seq<char>) -> Seq<Seq<char>> {
        table_neighbours(self.topology@, node)
    }

    /// A topology names each node once.
    pub open spec fn well_formed(&self) -> bool {
        distinct_names(self.topology@)
    }

    /// Whether this topology names each node once.
    pub fn has_distinct_names(&self) -> (ok: bool)
        ensures
            ok == self.well_formed(),
    {
        let ghost all = names(self.topology@);
        let n = self.topology.len();
        let mut i: usize = 0;
        while i < n
            invariant
                n == all.len(),
                all == names(self.topology@),
                i <= n,
                forall|a: int, b: int| 0 <= a < i && a < b < n ==> all[a] != all[b],
            decreases n - i,
        {
            let mut j: usize = i + 1;
            while j < n
                invariant
                    n == all.len(),
                    all == names(self.topology@),
                    i < n,
                    i < j <= n,
                    forall|b: int| i < b < j ==> all[i as int] != all[b],
                decreases n - j,
            {
                if self.topology[i].0 == self.topology[j].0 {
                    assert(all[i as int] == all[j as int]);
                    return false;
                }
                j = j + 1;
            }
            i = i + 1;
        }
        true
    }
}

/// Knows which nodes are next to which.
pub trait TopologyTrait {
    /// The neighbours of `node`.
    spec fn neighbours(&self, node: Seq<char>) -> Seq<Seq<char>>;

    /// The state names each node once.
    spec fn well_formed(&self) -> bool;

    /// Adopts `topology` and acknowledges it.
    fn handle_toplogy(&mut self, topology: Topology) -> (res: ResponsePayload)
        requires
            topology.well_formed(),
        ensures
            res is TopologyOk,
            final(self).well_formed(),
            forall|node: Seq<char>| #[trigger] final(self).neighbours(node) == topology.neighbours(node),
    ;

    /// The neighbours of `src_node_id`, without `src_node_id` itself.
    fn get_nearby_nodes(&self, src_node_id: &str) -> (res: Vec<String>)
        ensures
            views(res@) == without_name(self.neighbours(src_node_id@), src_node_id@),
    ;
}

/// The topology this node works with.
pub struct TopologyState(pub Vec<(String, Vec<String>)>);

impl TopologyTrait for TopologyState {
    open spec fn neighbours(&self, node: Seq<char>) -> Seq<Seq<char>> {
        table_neighbours(self.0@, node)
    }

    open spec fn well_formed(&self) -> bool {
        distinct_names(self.0@)
    }

    fn handle_toplogy(&mut self, topology: Topology) -> (res: ResponsePayload)
        ensures
            final(self).0@ == topology.topology@,
    {
        self.0 = topology.topology;
        ResponsePayload::TopologyOk
    }

    fn get_nearby_nodes(&self, src_node_id: &str) -> (res: Vec<String>) {
        let key = src_node_id.to_string();
        assert(key@ == src_node_id@);
        let mut res: Vec<String> = Vec::new();
        match find_entry(&self.0, &key) {
            None => {
                assert(views(res@) =~= without_name(Seq::empty(), key@));
                res
            },
            Some(idx) => {
                let list = &self.0[idx].1;
                assert(self.neighbours(src_node_id@) == views(list@));
                let ghost all = views(list@);
                let mut i: usize = 0;
                while i < list.len()
                    invariant
                        i <= list@.len(),
                        all == views(list@),
                        views(res@) == without_name(all.take(i as int), key@),
                    decreases list.len() - i,
                {
                    proof {
                        assert(all.take(i as int + 1).drop_last() =~= all.take(i as int));
                    }
                    if list[i] != key {
                        let name = list[i].clone();
                        res.push(name);
                        assert(views(res@) =~= without_name(all.take(i as int), key@).push(all[i as int]));
                    }
                    i = i + 1;
                }
                assert(all.take(list.len() as int) =~= all);
                res
            },
        }
    }
}

impl Default for TopologyState {
    fn default() -> (s: Self)
        ensures
            s.0@ == Seq::<(String, Vec<String>)>::empty(),
            s.well_formed(),
    {
        let s = TopologyState(Vec::new());
        assert(names(s.0@) =~= Seq::<Seq<char>>::empty());
        s
    }
}

} // verus!

use vstd::prelude::*;
use crate::saved::{SavedNodeGraph, SavedGraphic};

verus! {

/// A hash map with the Fx hasher, as the game data uses.
pub type FxHashMap<K, V> = hashbrown::HashMap<K, V, core::hash::BuildHasherDefault<rustc_hash::FxHasher>>;

/// The node graphs of a game, by name.
#[verifier::external_body]
pub struct GraphTable {
    map: FxHashMap<String, SavedNodeGraph>,
}

/// The graphs that a graph table holds, by name.
pub uninterp spec fn graph_table(t: GraphTable) -> Map<Seq<char>, SavedNodeGraph>;

/// `HashMap::default`: an empty table.
#[verifier::external_body]
fn graph_table_default() -> (t: GraphTable)
    ensures
        graph_table(t).dom().is_empty(),
{
    GraphTable { map: FxHashMap::default() }
}

/// `HashMap::insert`: stores a graph under a name, replacing what was there.
#[verifier::external_body]
fn graph_table_insert(t: &mut GraphTable, name: String, graph: SavedNodeGraph)
    ensures
        graph_table(*final(t)) == graph_table(*old(t)).insert(name@, graph),
{
    t.map.insert(name, graph);
}

/// `HashMap::get`: the graph stored under a name, if any.
#[verifier::external_body]
fn graph_table_get<'a>(t: &'a GraphTable, name: &str) -> (r: Option<&'a SavedNodeGraph>)
    ensures
        match r {
            Some(g) => graph_table(*t).dom().contains(name@) && *g == graph_table(*t)[name@],
            None => !graph_table(*t).dom().contains(name@),
        },
{
    t.map.get(name)
}

impl GraphTable {
    pub fn new() -> (t: Self)
        ensures
            graph_table(t).dom().is_empty(),
    {
        graph_table_default()
    }

    pub fn insert(&mut self, name: String, graph: SavedNodeGraph)
        ensures
            graph_table(*final(self)) == graph_table(*old(self)).insert(name@, graph),
    {
        graph_table_insert(self, name, graph)
    }

    pub fn get(&self, name: &str) -> (r: Option<&SavedNodeGraph>)
        ensures
            match r {
                Some(g) => graph_table(*self).dom().contains(name@) && *g == graph_table(*self)[name@],
                None => !graph_table(*self).dom().contains(name@),
            },
    {
        graph_table_get(self, name)
    }
}

/// The graphics of a game, by name.
#[verifier::external_body]
pub struct GraphicTable {
    map: FxHashMap<String, SavedGraphic>,
}

/// The graphics that a graphic table holds, by name.
pub uninterp spec fn graphic_table(t: GraphicTable) -> Map<Seq<char>, SavedGraphic>;

/// `HashMap::default`: an empty table.
#[verifier::external_body]
fn graphic_table_default() -> (t: GraphicTable)
    ensures
        graphic_table(t).dom().is_empty(),
{
    GraphicTable { map: FxHashMap::default() }
}

/// `HashMap::insert`: stores a graphic under a name, replacing what was
/// there.
#[verifier::external_body]
fn graphic_table_insert(t: &mut GraphicTable, name: String, graphic: SavedGraphic)
    ensures
        graphic_table(*final(t)) == graphic_table(*old(t)).insert(name@, graphic),
{
    t.map.insert(name, graphic);
}

/// `HashMap::get`: the graphic stored under a name, if any.
#[verifier::external_body]
fn graphic_table_get<'a>(t: &'a GraphicTable, name: &str) -> (r: Option<&'a SavedGraphic>)
    ensures
        match r {
            Some(g) => graphic_table(*t).dom().contains(name@) && *g == graphic_table(*t)[name@],
            None => !graphic_table(*t).dom().contains(name@),
        },
{
    t.map.get(name)
}

/// `HashMap::keys`, cloned: the names of the graphics, all of them and each
/// once, in the order in which the map is walked; that order is not stated.
#[verifier::external_body]
fn graphic_table_names(t: &GraphicTable) -> (r: Vec<String>)
    ensures
        r@.len() == graphic_table(*t).dom().len(),
        forall|i: int, j: int| 0 <= i < j < r@.len() ==> r@[i]@ != r@[j]@,
        forall|i: int| 0 <= i < r@.len() ==> graphic_table(*t).dom().contains(#[trigger] r@[i]@),
        forall|s: Seq<char>| #[trigger] graphic_table(*t).dom().contains(s) ==> exists|i: int| 0 <= i < r@.len() && r@[i]@ == s,
{
    t.map.keys().cloned().collect()
}

impl GraphicTable {
    pub fn new() -> (t: Self)
        ensures
            graphic_table(t).dom().is_empty(),
    {
        graphic_table_default()
    }

    pub fn insert(&mut self, name: String, graphic: SavedGraphic)
        ensures
            graphic_table(*final(self)) == graphic_table(*old(self)).insert(name@, graphic),
    {
        graphic_table_insert(self, name, graphic)
    }

    pub fn get(&self, name: &str) -> (r: Option<&SavedGraphic>)
        ensures
            match r {
                Some(g) => graphic_table(*self).dom().contains(name@) && *g == graphic_table(*self)[name@],
                None => !graphic_table(*self).dom().contains(name@),
            },
    {
        graphic_table_get(self, name)
    }

    /// The names of the graphics, each once, in an order that is not
    /// stated.
    pub fn names(&self) -> (r: Vec<String>)
        ensures
            r@.len() == graphic_table(*self).dom().len(),
            forall|i: int, j: int| 0 <= i < j < r@.len() ==> r@[i]@ != r@[j]@,
            forall|i: int| 0 <= i < r@.len() ==> graphic_table(*self).dom().contains(#[trigger] r@[i]@),
            forall|s: Seq<char>| #[trigger] graphic_table(*self).dom().contains(s) ==> exists|i: int| 0 <= i < r@.len() && r@[i]@ == s,
    {
        graphic_table_names(self)
    }
}

/// What the game needs at run time: its graphs and graphics by name, and the
/// name of the graph it starts with.
pub struct SavedGameData {
    pub graphs: GraphTable,
    pub graphics: GraphicTable,
    pub main_graph: String,
}

/// The name under which a saved graph is stored in the game data: the name
/// of its first node, the empty name for a graph without nodes.
pub open spec fn graph_key(g: SavedNodeGraph) -> Seq<char> {
    if g.nodes@.len() > 0 {
        g.nodes@[0].name@
    } else {
        Seq::empty()
    }
}

/// The names under which the graphs `graphs` are stored, in order, and the
/// name of the main graph, `main_graph` being its position in `graphs`: the
/// empty name where there is none.
pub fn graph_keys(graphs: &Vec<SavedNodeGraph>, main_graph: Option<u32>) -> (r: (Vec<String>, String))
    ensures
        r.0@.len() == graphs@.len(),
        forall|i: int| 0 <= i < graphs@.len() ==> #[trigger] r.0@[i]@ == graph_key(graphs@[i]),
        r.1@ == match main_graph {
            Some(k) => if k < graphs@.len() {
                graph_key(graphs@[k as int])
            } else {
                Seq::empty()
            },
            None => Seq::empty(),
        },
{
    let mut names: Vec<String> = Vec::new();
    let mut i: usize = 0;
    while i < graphs.len()
        invariant
            0 <= i <= graphs@.len(),
            names@.len() == i,
            forall|j: int| 0 <= j < i ==> #[trigger] names@[j]@ == graph_key(graphs@[j]),
        decreases graphs@.len() - i,
    {
        let g = &graphs[i];
        let name = if g.nodes.len() > 0 {
            g.nodes[0].name.clone()
        } else {
            String::new()
        };
        names.push(name);
        i = i + 1;
    }
    let main = match main_graph {
        Some(k) => {
            if (k as usize) < graphs.len() {
                proof {
                    assert(names@[k as int]@ == graph_key(graphs@[k as int]));
                }
                names[k as usize].clone()
            } else {
                String::new()
            }
        },
        None => String::new(),
    };
    (names, main)
}

} // verus!

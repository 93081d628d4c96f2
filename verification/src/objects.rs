//! The game-object store: an ordered mapping from grid cell to object
//! variant (monster, prop, ladder) with unique keys, and the object
//! variants themselves.

use vstd::prelude::*;

use crate::types::{calculate_new_direction, spec_new_direction, Direction, Location};

verus! {

/// Tile id of an orc on the object layer.
pub const ORC_TILE_ID: u32 = 63;
/// Tile id of a flower pot on the object layer.
pub const FLOWER_POT_TILE_ID: u32 = 149;
/// Tile id of a ladder on the object layer.
pub const LADDER_TILE_ID: u32 = 83;
/// Hit points an orc starts with.
pub const ORC_MAX_HP: u32 = 100;

/// A world object standing on one grid cell.
#[derive(Debug, Clone, Copy, PartialEq, Eq, Structural)]
pub enum GameObject {
    FlowerPot { id: u32, tileset_location: usize },
    Orc { id: u32, tileset_location: usize, hp: u32, direction: Direction },
    Ladder { id: u32, tileset_location: usize, target_z: u32 },
}

impl GameObject {
    /// The visual tile id of this object.
    pub fn id(&self) -> (r: u32)
        ensures
            r == self.spec_id(),
    {
        match self {
            GameObject::FlowerPot { id, .. } => *id,
            GameObject::Orc { id, .. } => *id,
            GameObject::Ladder { id, .. } => *id,
        }
    }

    /// What `id` returns.
    pub open spec fn spec_id(self) -> u32 {
        match self {
            GameObject::FlowerPot { id, .. } => id,
            GameObject::Orc { id, .. } => id,
            GameObject::Ladder { id, .. } => id,
        }
    }

    /// Whether this object is a monster.
    pub fn is_monster(&self) -> (r: bool)
        ensures
            r == (self is Orc),
    {
        match self {
            GameObject::Orc { .. } => true,
            _ => false,
        }
    }

    /// Reorients the object if it is a monster; anything else is untouched.
    pub fn change_direction(&mut self, direction: Direction)
        ensures
            *final(self) == old(self).spec_with_direction(direction),
    {
        if let GameObject::Orc { direction: d, .. } = self {
            *d = direction;
        }
    }

    /// What `change_direction` leaves behind.
    pub open spec fn spec_with_direction(self, direction: Direction) -> GameObject {
        match self {
            GameObject::Orc { id, tileset_location, hp, .. } => GameObject::Orc {
                id,
                tileset_location,
                hp,
                direction,
            },
            other => other,
        }
    }

    /// Index of the object's tile inside its tileset.
    pub fn tileset_location(&self) -> (r: usize)
        ensures
            r == self.spec_tileset_location(),
    {
        match self {
            GameObject::FlowerPot { tileset_location, .. } => *tileset_location,
            GameObject::Orc { tileset_location, .. } => *tileset_location,
            GameObject::Ladder { tileset_location, .. } => *tileset_location,
        }
    }

    /// What `tileset_location` returns.
    pub open spec fn spec_tileset_location(self) -> usize {
        match self {
            GameObject::FlowerPot { tileset_location, .. } => tileset_location,
            GameObject::Orc { tileset_location, .. } => tileset_location,
            GameObject::Ladder { tileset_location, .. } => tileset_location,
        }
    }
}

/// The object found by a first-match scan of `s` for key `l`.
pub open spec fn lookup_from(s: Seq<(Location, GameObject)>, i: int, l: Location) -> Option<
    GameObject,
>
    decreases s.len() - i,
{
    if i < 0 || i >= s.len() {
        None
    } else if s[i].0 == l {
        Some(s[i].1)
    } else {
        lookup_from(s, i + 1, l)
    }
}

/// The object stored at cell `l`, if any.
pub open spec fn lookup(s: Seq<(Location, GameObject)>, l: Location) -> Option<GameObject> {
    lookup_from(s, 0, l)
}

/// No two entries of `s` share a cell.
pub open spec fn keys_unique(s: Seq<(Location, GameObject)>) -> bool {
    forall|i: int, j: int| 0 <= i < j < s.len() ==> (#[trigger] s[i]).0 != (#[trigger] s[j]).0
}

/// Under unique keys, a scan from any prefix position that has not yet
/// passed a match agrees with the full scan; in particular an entry at
/// index `k` is what `lookup` finds.
proof fn lemma_lookup_from_found(s: Seq<(Location, GameObject)>, i: int, k: int)
    requires
        keys_unique(s),
        0 <= i <= k < s.len(),
    ensures
        lookup_from(s, i, s[k].0) == Some(s[k].1),
    decreases k - i,
{
    if i < k {
        assert(s[i].0 != s[k].0);
        lemma_lookup_from_found(s, i + 1, k);
    }
}

/// If no entry from `i` on has key `l`, the scan from `i` misses.
proof fn lemma_lookup_from_missing(s: Seq<(Location, GameObject)>, i: int, l: Location)
    requires
        forall|k: int| i <= k < s.len() ==> (#[trigger] s[k]).0 != l,
        0 <= i,
    ensures
        lookup_from(s, i, l) is None,
    decreases s.len() - i,
{
    if i < s.len() {
        lemma_lookup_from_missing(s, i + 1, l);
    }
}

/// An entry with key `l` at index `k` makes `lookup` find key `l`.
pub proof fn lemma_lookup_found(s: Seq<(Location, GameObject)>, k: int)
    requires
        keys_unique(s),
        0 <= k < s.len(),
    ensures
        lookup(s, s[k].0) == Some(s[k].1),
{
    lemma_lookup_from_found(s, 0, k);
}

/// With no entry keyed `l`, `lookup` misses.
pub proof fn lemma_lookup_missing(s: Seq<(Location, GameObject)>, l: Location)
    requires
        forall|k: int| 0 <= k < s.len() ==> (#[trigger] s[k]).0 != l,
    ensures
        lookup(s, l) is None,
{
    lemma_lookup_from_missing(s, 0, l);
}

/// A hit of `lookup` names some entry of `s`.
pub proof fn lemma_lookup_some_index(s: Seq<(Location, GameObject)>, l: Location) -> (k: int)
    requires
        lookup(s, l) is Some,
    ensures
        0 <= k < s.len(),
        s[k] == (l, lookup(s, l).unwrap()),
{
    lemma_lookup_from_some_index(s, 0, l)
}

proof fn lemma_lookup_from_some_index(s: Seq<(Location, GameObject)>, i: int, l: Location) -> (
    k: int)
    requires
        0 <= i,
        lookup_from(s, i, l) is Some,
    ensures
        i <= k < s.len(),
        s[k] == (l, lookup_from(s, i, l).unwrap()),
    decreases s.len() - i,
{
    if s[i].0 == l {
        i
    } else {
        lemma_lookup_from_some_index(s, i + 1, l)
    }
}

/// The store of world objects: a mapping from cell to object, keys unique.
#[derive(Debug, Clone, PartialEq, Eq)]
pub struct GameObjects {
    pub entries: Vec<(Location, GameObject)>,
}

impl GameObjects {
    /// The store seen as a mathematical map from cell to object.
    pub open spec fn view(self) -> Map<Location, GameObject> {
        Map::new(|l: Location| lookup(self.entries@, l) is Some, |l: Location| lookup(self.entries@, l).unwrap())
    }

    /// Keys are unique: no two entries occupy the same cell.
    pub open spec fn wf(self) -> bool {
        keys_unique(self.entries@)
    }

    /// An empty store.
    pub fn new() -> (r: GameObjects)
        ensures
            r.wf(),
            r@ =~= Map::<Location, GameObject>::empty(),
            r.entries@.len() == 0,
    {
        let r = GameObjects { entries: Vec::new() };
        proof {
            assert forall|l: Location| !(#[trigger] r@.dom().contains(l)) by {
                lemma_lookup_missing(r.entries@, l);
            }
        }
        r
    }

    /// How many objects the store holds.
    pub fn len(&self) -> (r: usize)
        ensures
            r == self.entries@.len(),
    {
        self.entries.len()
    }

    /// The entries as a list of cell-object pairs, in store order.
    pub fn get_objects(self) -> (r: Vec<(Location, GameObject)>)
        ensures
            r == self.entries,
    {
        self.entries
    }

    /// The object standing at `l`, if any.
    pub fn get(&self, l: Location) -> (r: Option<GameObject>)
        requires
            self.wf(),
        ensures
            r == lookup(self.entries@, l),
            r is Some <==> self@.dom().contains(l),
            r is Some ==> r.unwrap() == self@[l],
    {
        let n = self.entries.len();
        let mut i: usize = 0;
        while i < n
            invariant
                self.wf(),
                n == self.entries@.len(),
                0 <= i <= n,
                forall|k: int| 0 <= k < i ==> (#[trigger] self.entries@[k]).0 != l,
            decreases n - i,
        {
            let (el, eo) = self.entries[i];
            if el == l {
                proof {
                    lemma_lookup_found(self.entries@, i as int);
                }
                return Some(eo);
            }
            i = i + 1;
        }
        proof {
            lemma_lookup_missing(self.entries@, l);
        }
        None
    }

    /// Index of the entry at `l`, if any.
    fn index_of(&self, l: Location) -> (r: Option<usize>)
        requires
            self.wf(),
        ensures
            match r {
                Some(k) => k < self.entries@.len() && self.entries@[k as int].0 == l
                    && lookup(self.entries@, l) == Some(self.entries@[k as int].1),
                None => lookup(self.entries@, l) is None,
            },
    {
        let n = self.entries.len();
        let mut i: usize = 0;
        while i < n
            invariant
                self.wf(),
                n == self.entries@.len(),
                0 <= i <= n,
                forall|k: int| 0 <= k < i ==> (#[trigger] self.entries@[k]).0 != l,
            decreases n - i,
        {
            let (el, _) = self.entries[i];
            if el == l {
                proof {
                    lemma_lookup_found(self.entries@, i as int);
                }
                return Some(i);
            }
            i = i + 1;
        }
        proof {
            lemma_lookup_missing(self.entries@, l);
        }
        None
    }

    /// Writes `o` at cell `l`, replacing whatever stood there.
    pub fn insert(&mut self, l: Location, o: GameObject)
        requires
            old(self).wf(),
        ensures
            final(self).wf(),
            final(self)@ =~= old(self)@.insert(l, o),
            final(self).entries@.len() == if old(self)@.dom().contains(l) {
                old(self).entries@.len() as int
            } else {
                old(self).entries@.len() + 1 as int
            },
    {
        let ghost pre = self.entries@;
        match self.index_of(l) {
            Some(k) => {
                self.entries.set(k, (l, o));
                proof {
                    lemma_lookup_views_update(pre, self.entries@, k as int, l, o);
                }
            },
            None => {
                self.entries.push((l, o));
                proof {
                    lemma_lookup_views_push(pre, self.entries@, l, o);
                }
            },
        }
    }

    /// Removes and returns the object at `l`, if one stands there.
    pub fn remove(&mut self, l: Location) -> (r: Option<GameObject>)
        requires
            old(self).wf(),
        ensures
            final(self).wf(),
            r == lookup(old(self).entries@, l),
            r is None ==> *final(self) == *old(self),
            final(self)@ =~= old(self)@.remove(l),
            final(self).entries@.len() == if old(self)@.dom().contains(l) {
                old(self).entries@.len() - 1
            } else {
                old(self).entries@.len() as int
            },
    {
        let ghost pre = self.entries@;
        match self.index_of(l) {
            Some(k) => {
                let (_, o) = self.entries.remove(k);
                proof {
                    lemma_lookup_views_remove(pre, self.entries@, k as int, l);
                }
                Some(o)
            },
            None => {
                proof {
                    assert(!self@.dom().contains(l));
                    assert(self@ =~= self@.remove(l));
                }
                None
            },
        }
    }

    /// Moves the object at `from` to `to`: the entry leaves `from`, a monster
    /// is reoriented by the move's delta, and the object lands at `to`.
    /// Returns `None`, changing nothing, when `from` is empty. The store
    /// keeps its count whenever `to` was empty or the move is a self-move.
    pub fn move_object(&mut self, from: Location, to: Location) -> (r: Option<()>)
        requires
            old(self).wf(),
        ensures
            final(self).wf(),
            r is Some <==> old(self)@.dom().contains(from),
            r is None ==> *final(self) == *old(self),
            r is Some ==> final(self)@ =~= old(self)@.remove(from).insert(
                to,
                old(self)@[from].spec_with_direction(spec_new_direction(from, to)),
            ),
            (r is Some && !(old(self)@.dom().contains(to) && to != from)) ==> final(self).entries@.len()
                == old(self).entries@.len(),
    {
        let removed = self.remove(from);
        match removed {
            Some(mut object) => {
                if object.is_monster() {
                    let direction = calculate_new_direction(from, to);
                    object.change_direction(direction);
                }
                self.insert(to, object);
                Some(())
            },
            None => None,
        }
    }
}

/// Replacing the entry at `k` (whose key is `l`) with `(l, o)` keeps keys
/// unique and rewrites only key `l` in every scan.
proof fn lemma_lookup_views_update(
    pre: Seq<(Location, GameObject)>,
    post: Seq<(Location, GameObject)>,
    k: int,
    l: Location,
    o: GameObject,
)
    requires
        keys_unique(pre),
        0 <= k < pre.len(),
        pre[k].0 == l,
        post == pre.update(k, (l, o)),
    ensures
        keys_unique(post),
        lookup(post, l) == Some(o),
        forall|l2: Location| l2 != l ==> lookup(post, l2) == lookup(pre, l2),
{
    assert(keys_unique(post));
    lemma_lookup_found(post, k);
    assert forall|l2: Location| l2 != l implies lookup(post, l2) == lookup(pre, l2) by {
        if lookup(pre, l2) is Some {
            let j = lemma_lookup_some_index(pre, l2);
            assert(post[j] == pre[j]);
            lemma_lookup_found(post, j);
        } else if lookup(post, l2) is Some {
            let j = lemma_lookup_some_index(post, l2);
            assert(pre[j] == post[j]);
            lemma_lookup_found(pre, j);
        }
    }
}

/// Pushing a fresh key keeps keys unique, binds it, and touches no other.
proof fn lemma_lookup_views_push(
    pre: Seq<(Location, GameObject)>,
    post: Seq<(Location, GameObject)>,
    l: Location,
    o: GameObject,
)
    requires
        keys_unique(pre),
        lookup(pre, l) is None,
        post == pre.push((l, o)),
    ensures
        keys_unique(post),
        lookup(post, l) == Some(o),
        forall|l2: Location| l2 != l ==> lookup(post, l2) == lookup(pre, l2),
{
    assert(keys_unique(post)) by {
        assert forall|i: int, j: int| 0 <= i < j < post.len() implies (#[trigger] post[i]).0 != (
        #[trigger] post[j]).0 by {
            if j == post.len() - 1 {
                if post[i].0 == l {
                    lemma_lookup_found(pre, i);
                }
            }
        }
    }
    lemma_lookup_found(post, post.len() - 1);
    assert forall|l2: Location| l2 != l implies lookup(post, l2) == lookup(pre, l2) by {
        if lookup(pre, l2) is Some {
            let j = lemma_lookup_some_index(pre, l2);
            assert(post[j] == pre[j]);
            lemma_lookup_found(post, j);
        } else if lookup(post, l2) is Some {
            let j = lemma_lookup_some_index(post, l2);
            assert(j < post.len() - 1);
            assert(pre[j] == post[j]);
            lemma_lookup_found(pre, j);
        }
    }
}

/// Removing the entry at `k` (keyed `l`) keeps keys unique, frees `l`, and
/// touches no other key.
proof fn lemma_lookup_views_remove(
    pre: Seq<(Location, GameObject)>,
    post: Seq<(Location, GameObject)>,
    k: int,
    l: Location,
)
    requires
        keys_unique(pre),
        0 <= k < pre.len(),
        pre[k].0 == l,
        post == pre.remove(k),
    ensures
        keys_unique(post),
        lookup(post, l) is None,
        forall|l2: Location| l2 != l ==> lookup(post, l2) == lookup(pre, l2),
{
    assert(keys_unique(post));
    assert(lookup(post, l) is None) by {
        assert forall|i: int| 0 <= i < post.len() implies (#[trigger] post[i]).0 != l by {
            if i < k {
                assert(post[i] == pre[i]);
            } else {
                assert(post[i] == pre[i + 1]);
            }
        }
        lemma_lookup_missing(post, l);
    }
    assert forall|l2: Location| l2 != l implies lookup(post, l2) == lookup(pre, l2) by {
        if lookup(pre, l2) is Some {
            let j = lemma_lookup_some_index(pre, l2);
            assert(j != k);
            if j < k {
                assert(post[j] == pre[j]);
                lemma_lookup_found(post, j);
            } else {
                assert(post[j - 1] == pre[j]);
                lemma_lookup_found(post, j - 1);
            }
        } else if lookup(post, l2) is Some {
            let j = lemma_lookup_some_index(post, l2);
            if j < k {
                assert(pre[j] == post[j]);
                lemma_lookup_found(pre, j);
            } else {
                assert(pre[j + 1] == post[j]);
                lemma_lookup_found(pre, j + 1);
            }
        }
    }
}


/// The object a tile id stands for on the object layer, if any: a pot, an
/// orc at full health facing south, or a ladder going up one floor.
pub open spec fn spec_tile_object(tile_id: u32, tileset_location: usize) -> Option<GameObject> {
    if tile_id == FLOWER_POT_TILE_ID {
        Some(GameObject::FlowerPot { id: tile_id, tileset_location })
    } else if tile_id == ORC_TILE_ID {
        Some(
            GameObject::Orc {
                id: tile_id,
                tileset_location,
                hp: ORC_MAX_HP,
                direction: Direction::South,
            },
        )
    } else if tile_id == LADDER_TILE_ID {
        Some(GameObject::Ladder { id: tile_id, tileset_location, target_z: 1 })
    } else {
        None
    }
}

/// The store the first `i` tiles build, later tiles overriding earlier
/// ones on the same cell.
pub open spec fn spec_tiles_map(s: Seq<(Location, u32, usize)>, i: int) -> Map<
    Location,
    GameObject,
>
    decreases i,
{
    if i <= 0 {
        Map::empty()
    } else {
        spec_tiles_map(s, i - 1).insert(
            s[i - 1].0,
            spec_tile_object(s[i - 1].1, s[i - 1].2).unwrap(),
        )
    }
}

impl GameObjects {
    /// Builds the store from the map file's object layer: each tile is a
    /// cell, a tile id, and a tileset index. An unknown tile id aborts the
    /// load and names the id.
    pub fn from_tile_data(tiles: &Vec<(Location, u32, usize)>) -> (r: Result<GameObjects, u32>)
        ensures
            r matches Err(t) ==> exists|k: int|
                0 <= k < tiles@.len() && (#[trigger] tiles@[k]).1 == t && spec_tile_object(
                    tiles@[k].1,
                    tiles@[k].2,
                ) is None,
            r is Ok <==> forall|k: int|
                0 <= k < tiles@.len() ==> spec_tile_object(
                    (#[trigger] tiles@[k]).1,
                    tiles@[k].2,
                ) is Some,
            r matches Ok(go) ==> go.wf() && go@ =~= spec_tiles_map(tiles@, tiles@.len() as int),
    {
        let mut go = GameObjects::new();
        let n = tiles.len();
        let mut i: usize = 0;
        while i < n
            invariant
                n == tiles@.len(),
                0 <= i <= n,
                go.wf(),
                go@ =~= spec_tiles_map(tiles@, i as int),
                forall|k: int|
                    0 <= k < i ==> spec_tile_object(
                        (#[trigger] tiles@[k]).1,
                        tiles@[k].2,
                    ) is Some,
            decreases n - i,
        {
            let (l, tile_id, tileset_location) = tiles[i];
            let o = if tile_id == FLOWER_POT_TILE_ID {
                GameObject::FlowerPot { id: tile_id, tileset_location }
            } else if tile_id == ORC_TILE_ID {
                GameObject::Orc {
                    id: tile_id,
                    tileset_location,
                    hp: ORC_MAX_HP,
                    direction: Direction::South,
                }
            } else if tile_id == LADDER_TILE_ID {
                GameObject::Ladder { id: tile_id, tileset_location, target_z: 1 }
            } else {
                return Err(tile_id);
            };
            go.insert(l, o);
            i = i + 1;
        }
        Ok(go)
    }
}

} // verus!

//! The database: blocks filed by bucket key, and locations by identifier. Both are
//! built once and only read afterwards.
use crate::datasets::{Block, Location};
use crate::error::GeoError;
use crate::ipv4::{address_of_text, parse_ipv4};
use crate::network::{
    bucket_key_of, contains_spec, expand_network, expand_spec, ipaddr_to_map_key, lemma_contained_key,
    lemma_expand_shape,
};
use std::collections::HashMap;
use std::sync::Arc;
use vstd::prelude::*;

verus! {

broadcast use vstd::std_specs::hash::group_hash_axioms;

/// The blocks filed under bucket key `k`, in arrival order: those whose network
/// expands to `k`.
pub open spec fn bucket(blocks: Seq<Block>, k: u32) -> Seq<Block>
    decreases blocks.len(),
{
    if blocks.len() == 0 {
        Seq::empty()
    } else {
        let rest = bucket(blocks.drop_last(), k);
        if expand_spec(blocks.last().network).contains(k) {
            rest.push(blocks.last())
        } else {
            rest
        }
    }
}

/// The index of a block sequence: each key that some block expands to, with its bucket.
pub open spec fn index_of(blocks: Seq<Block>) -> Map<u32, Seq<Block>> {
    Map::new(|k: u32| bucket(blocks, k).len() > 0, |k: u32| bucket(blocks, k))
}

/// The first block, in arrival order, whose network contains `a`.
pub open spec fn first_containing(blocks: Seq<Block>, a: u32) -> Option<Block>
    decreases blocks.len(),
{
    if blocks.len() == 0 {
        None
    } else {
        match first_containing(blocks.drop_last(), a) {
            Some(b) => Some(b),
            None => if contains_spec(blocks.last().network, a) {
                Some(blocks.last())
            } else {
                None
            },
        }
    }
}

/// The location map of a row sequence: each identifier with the last row that carries it.
pub open spec fn location_map(rows: Seq<Location>) -> Map<u32, Location>
    decreases rows.len(),
{
    if rows.len() == 0 {
        Map::empty()
    } else {
        location_map(rows.drop_last()).insert(rows.last().geoname_id, rows.last())
    }
}

/// The blocks that shared handles point to.
pub open spec fn shared_blocks(v: Seq<Arc<Block>>) -> Seq<Block> {
    v.map_values(|b: Arc<Block>| *b)
}

/// The bucket of `k` in `m` is the one that `blocks` gives it.
spec fn files_bucket(m: Map<u32, Vec<Arc<Block>>>, blocks: Seq<Block>, k: u32) -> bool {
    if bucket(blocks, k).len() > 0 {
        m.contains_key(k) && shared_blocks(m[k]@) == bucket(blocks, k)
    } else {
        !m.contains_key(k)
    }
}

/// While a block is filed: keys already done hold the buckets of `after`, the
/// others those of `before`.
spec fn files_bucket_during(
    m: Map<u32, Vec<Arc<Block>>>,
    done: Seq<u32>,
    after: Seq<Block>,
    before: Seq<Block>,
    k: u32,
) -> bool {
    files_bucket(
        m,
        if done.contains(k) {
            after
        } else {
            before
        },
        k,
    )
}

/// Blocks, filed by bucket key, and locations, filed by identifier.
pub struct GeoIPDB {
    locations: HashMap<u32, Location>,
    blocks: HashMap<u32, Vec<Arc<Block>>>,
    arrivals: Vec<Arc<Block>>,
    dataset: Ghost<Seq<Block>>,
}

impl GeoIPDB {
    /// The blocks the database was built from, in arrival order.
    pub closed spec fn dataset(&self) -> Seq<Block> {
        self.dataset@
    }

    /// The buckets of the database.
    pub closed spec fn index(&self) -> Map<u32, Seq<Block>> {
        Map::new(|k: u32| self.blocks@.contains_key(k), |k: u32| shared_blocks(self.blocks@[k]@))
    }

    /// The locations of the database, by identifier.
    pub closed spec fn locations(&self) -> Map<u32, Location> {
        self.locations@
    }

    /// Every bucket holds what the dataset files under its key.
    pub closed spec fn wf(&self) -> bool {
        &&& forall|k: u32| #[trigger] files_bucket(self.blocks@, self.dataset@, k)
        &&& shared_blocks(self.arrivals@) == self.dataset@
    }

    /// Builds the database: files each block under each of its bucket keys, in
    /// arrival order, and each location under its identifier, the last row of an
    /// identifier winning.
    pub fn new(blocks: Vec<Block>, locations: Vec<Location>) -> (r: GeoIPDB)
        ensures
            r.wf(),
            r.dataset() == blocks@,
            r.index() == index_of(blocks@),
            r.locations() == location_map(locations@),
    {
        let mut index: HashMap<u32, Vec<Arc<Block>>> = HashMap::new();
        let mut arrivals: Vec<Arc<Block>> = Vec::new();
        let mut i: usize = 0;
        while i < blocks.len()
            invariant
                i <= blocks.len(),
                shared_blocks(arrivals@) == blocks@.take(i as int),
                forall|k: u32| #[trigger] files_bucket(index@, blocks@.take(i as int), k),
            decreases blocks.len() - i,
        {
            let ghost before = blocks@.take(i as int);
            let ghost after = blocks@.take(i + 1);
            proof {
                assert(after.drop_last() =~= before);
                lemma_expand_shape(blocks@[i as int].network);
            }
            let block = Arc::new(blocks[i].duplicate());
            let keys = expand_network(&blocks[i].network);
            arrivals.push(Arc::clone(&block));
            proof {
                assert(shared_blocks(arrivals@) =~= after);
            }
            let mut j: usize = 0;
            while j < keys.len()
                invariant
                    i < blocks.len(),
                    j <= keys.len(),
                    keys@ == expand_spec(blocks@[i as int].network),
                    keys@.no_duplicates(),
                    *block == blocks@[i as int],
                    shared_blocks(arrivals@) == after,
                    after.drop_last() == before,
                    after.last() == blocks@[i as int],
                    after.len() == i + 1,
                    forall|k: u32| #[trigger]
                        files_bucket_during(index@, keys@.take(j as int), after, before, k),
                decreases keys.len() - j,
            {
                let k = keys[j];
                let ghost old_index = index@;
                let mut list = match index.remove(&k) {
                    Some(l) => l,
                    None => Vec::new(),
                };
                let ghost old_list = list@;
                proof {
                    assert(!keys@.take(j as int).contains(k));
                    assert(files_bucket_during(old_index, keys@.take(j as int), after, before, k));
                    assert(files_bucket(old_index, before, k));
                    assert(shared_blocks(old_list) =~= bucket(before, k));
                    assert(keys@[j as int] == k);
                    assert(expand_spec(after.last().network).contains(k));
                    assert(after.len() == i + 1);
                    assert(bucket(after, k) == bucket(before, k).push(blocks@[i as int]));
                }
                list.push(Arc::clone(&block));
                index.insert(k, list);
                proof {
                    assert(list@ == old_list.push(block));
                    assert(shared_blocks(list@) =~= bucket(after, k));
                    assert forall|k2: u32| #[trigger]
                        files_bucket_during(index@, keys@.take(j + 1), after, before, k2) by {
                        assert(keys@.take(j + 1) =~= keys@.take(j as int).push(k));
                        if k2 != k {
                            assert(keys@.take(j + 1).contains(k2) == keys@.take(j as int).contains(k2));
                            assert(files_bucket_during(old_index, keys@.take(j as int), after, before, k2));
                            assert(index@.contains_key(k2) == old_index.contains_key(k2));
                            assert(index@.contains_key(k2) ==> index@[k2] == old_index[k2]);
                        } else {
                            assert(keys@.take(j + 1)[j as int] == k);
                            assert(index@.contains_key(k) && index@[k] == list);
                        }
                    }
                }
                j = j + 1;
            }
            proof {
                assert(keys@.take(keys@.len() as int) =~= keys@);
                assert forall|k: u32| #[trigger] files_bucket(index@, after, k) by {
                    assert(files_bucket_during(index@, keys@.take(keys@.len() as int), after, before, k));
                    if !keys@.contains(k) {
                        assert(bucket(after, k) == bucket(before, k));
                    }
                }
            }
            i = i + 1;
        }
        proof {
            assert(blocks@.take(blocks@.len() as int) =~= blocks@);
        }
        let mut places: HashMap<u32, Location> = HashMap::new();
        let mut i: usize = 0;
        while i < locations.len()
            invariant
                i <= locations.len(),
                places@ == location_map(locations@.take(i as int)),
            decreases locations.len() - i,
        {
            proof {
                assert(locations@.take(i + 1).drop_last() =~= locations@.take(i as int));
            }
            let row = locations[i].duplicate();
            places.insert(row.geoname_id, row);
            i = i + 1;
        }
        proof {
            assert(locations@.take(locations@.len() as int) =~= locations@);
        }
        let r = GeoIPDB { locations: places, blocks: index, arrivals, dataset: Ghost(blocks@) };
        proof {
            r.lemma_index_of_dataset();
        }
        r
    }
}

/// Only a block whose network expands to an address's bucket key can contain the
/// address: the first block of the whole sequence that contains it is the first
/// of that bucket that does.
pub proof fn lemma_first_containing_in_bucket(blocks: Seq<Block>, a: u32)
    ensures
        first_containing(bucket(blocks, bucket_key_of(a)), a) == first_containing(blocks, a),
    decreases blocks.len(),
{
    if blocks.len() > 0 {
        let k = bucket_key_of(a);
        let rest = blocks.drop_last();
        let b = blocks.last();
        lemma_first_containing_in_bucket(rest, a);
        if expand_spec(b.network).contains(k) {
            assert(bucket(blocks, k).drop_last() =~= bucket(rest, k));
        } else if contains_spec(b.network, a) {
            lemma_contained_key(b.network, a);
        }
    }
}

/// The first block that contains `a` is the one at the least index that does.
proof fn lemma_first_containing_at(blocks: Seq<Block>, a: u32, i: int)
    requires
        0 <= i <= blocks.len(),
        forall|j: int| 0 <= j < i ==> !contains_spec(#[trigger] blocks[j].network, a),
    ensures
        i == blocks.len() ==> first_containing(blocks, a) is None,
        i < blocks.len() && contains_spec(blocks[i].network, a) ==> first_containing(blocks, a)
            == Some(blocks[i]),
    decreases blocks.len(),
{
    if blocks.len() > 0 {
        let rest = blocks.drop_last();
        if i < blocks.len() - 1 {
            lemma_first_containing_at(rest, a, i);
        } else {
            lemma_first_containing_at(rest, a, rest.len() as int);
        }
    }
}

impl GeoIPDB {
    /// A well-formed database holds the index of its dataset.
    pub proof fn lemma_index_of_dataset(&self)
        requires
            self.wf(),
        ensures
            self.index() == index_of(self.dataset()),
    {
        assert forall|k: u32| #[trigger] self.index().contains_key(k) == index_of(
            self.dataset(),
        ).contains_key(k) by {
            assert(files_bucket(self.blocks@, self.dataset@, k));
        }
        assert forall|k: u32| #[trigger] self.index().contains_key(k) implies self.index()[k]
            == index_of(self.dataset())[k] by {
            assert(files_bucket(self.blocks@, self.dataset@, k));
        }
        assert(self.index() =~= index_of(self.dataset()));
    }
}

/// Building twice from the same blocks gives the same buckets, with the same
/// blocks in the same order.
pub proof fn lemma_build_deterministic(d1: GeoIPDB, d2: GeoIPDB)
    requires
        d1.wf(),
        d2.wf(),
        d1.dataset() == d2.dataset(),
    ensures
        d1.index() == d2.index(),
{
    d1.lemma_index_of_dataset();
    d2.lemma_index_of_dataset();
}

/// With no blocks there are no buckets, and no address lies in any block.
pub proof fn lemma_empty_resolves_nothing(a: u32)
    ensures
        index_of(Seq::<Block>::empty()) == Map::<u32, Seq<Block>>::empty(),
        first_containing(Seq::<Block>::empty(), a) is None,
{
    assert(index_of(Seq::<Block>::empty()) =~= Map::<u32, Seq<Block>>::empty());
}

/// An address resolves only to a block whose network contains it, however the
/// buckets group blocks; and a block that contains it is found unless an earlier
/// one also does.
pub proof fn lemma_resolution_by_containment(blocks: Seq<Block>, a: u32, i: int)
    requires
        0 <= i < blocks.len(),
    ensures
        first_containing(blocks, a) matches Some(b) ==> contains_spec(b.network, a),
        contains_spec(blocks[i].network, a) ==> first_containing(blocks, a) is Some,
    decreases blocks.len(),
{
    let rest = blocks.drop_last();
    if i < blocks.len() - 1 {
        lemma_resolution_by_containment(rest, a, i);
    } else if rest.len() > 0 {
        lemma_resolution_by_containment(rest, a, 0);
    }
}

impl GeoIPDB {
    /// The first block, in arrival order, whose network contains the address that
    /// `ip` spells; `Ok(None)` when no block does. Fails with `InvalidAddress` when
    /// `ip` is not a dotted-decimal IPv4 literal.
    pub fn resolve(&self, ip: &str) -> (r: Result<Option<Arc<Block>>, GeoError>)
        requires
            self.wf(),
        ensures
            match address_of_text(ip@) {
                None => r == Err::<Option<Arc<Block>>, GeoError>(GeoError::InvalidAddress),
                Some(a) => match r {
                    Ok(Some(b)) => first_containing(self.dataset(), a) == Some(*b),
                    Ok(None) => first_containing(self.dataset(), a) is None,
                    Err(_) => false,
                },
            },
    {
        let a = match parse_ipv4(ip) {
            Some(a) => a,
            None => {
                return Err(GeoError::InvalidAddress);
            },
        };
        let k = ipaddr_to_map_key(a);
        proof {
            lemma_first_containing_in_bucket(self.dataset@, a);
            assert(files_bucket(self.blocks@, self.dataset@, k));
        }
        match self.blocks.get(&k) {
            None => {
                proof {
                    lemma_first_containing_at(bucket(self.dataset@, k), a, 0);
                }
                Ok(None)
            },
            Some(list) => {
                let ghost candidates = bucket(self.dataset@, k);
                let mut i: usize = 0;
                while i < list.len()
                    invariant
                        i <= list.len(),
                        shared_blocks(list@) == candidates,
                        first_containing(candidates, a) == first_containing(self.dataset(), a),
                        address_of_text(ip@) == Some(a),
                        forall|j: int| 0 <= j < i ==> !contains_spec(#[trigger] candidates[j].network, a),
                    decreases list.len() - i,
                {
                    proof {
                        assert(candidates[i as int] == *list@[i as int]);
                    }
                    if list[i].network.contains(a) {
                        proof {
                            assert(candidates[i as int] == *list@[i as int]);
                            lemma_first_containing_at(candidates, a, i as int);
                        }
                        return Ok(Some(Arc::clone(&list[i])));
                    }
                    i = i + 1;
                }
                proof {
                    lemma_first_containing_at(candidates, a, i as int);
                }
                Ok(None)
            },
        }
    }

    /// Checks that every block's `geoname_id` has a location, so that a lookup of
    /// the location of a resolved block cannot fail. Fails with `UnknownGeonameId`
    /// exactly when some block's identifier has none.
    pub fn check_geoname_ids(&self) -> (r: Result<(), GeoError>)
        requires
            self.wf(),
        ensures
            r is Ok <==> forall|i: int|
                0 <= i < self.dataset().len() ==> self.locations().contains_key(
                    #[trigger] self.dataset()[i].geoname_id,
                ),
            r matches Err(e) ==> e == GeoError::UnknownGeonameId,
    {
        let mut i: usize = 0;
        while i < self.arrivals.len()
            invariant
                i <= self.arrivals.len(),
                shared_blocks(self.arrivals@) == self.dataset@,
                forall|j: int|
                    0 <= j < i ==> self.locations@.contains_key(#[trigger] self.dataset@[j].geoname_id),
            decreases self.arrivals.len() - i,
        {
            proof {
                assert(self.dataset@[i as int] == *self.arrivals@[i as int]);
            }
            if !self.locations.contains_key(&self.arrivals[i].geoname_id) {
                proof {
                    assert(!self.locations().contains_key(self.dataset()[i as int].geoname_id));
                }
                return Err(GeoError::UnknownGeonameId);
            }
            i = i + 1;
        }
        Ok(())
    }

    /// The location filed under `geoname_id`. Fails with `UnknownGeonameId` when no
    /// location row carries it.
    pub fn get_location(&self, geoname_id: u32) -> (r: Result<&Location, GeoError>)
        ensures
            match r {
                Ok(l) => self.locations().contains_key(geoname_id) && *l == self.locations()[geoname_id],
                Err(e) => e == GeoError::UnknownGeonameId && !self.locations().contains_key(geoname_id),
            },
    {
        match self.locations.get(&geoname_id) {
            Some(l) => Ok(l),
            None => Err(GeoError::UnknownGeonameId),
        }
    }
}

} // verus!

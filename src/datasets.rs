//! The records of the two datasets: network blocks and locations.
use crate::error::GeoError;
use crate::network::{cidr_of, Ipv4Network};
use vstd::prelude::*;

verus! {

/// A row of the block dataset as read, before incomplete rows are dropped.
/// Coordinates are the bit patterns of 32-bit floats.
#[derive(Debug)]
pub struct RawBlock {
    pub network: String,
    pub geoname_id: Option<u32>,
    pub postal_code: String,
    pub latitude_bits: Option<u32>,
    pub longitude_bits: Option<u32>,
}

/// A network block admitted to the index. Coordinates are the bit patterns of
/// 32-bit floats.
#[derive(Debug)]
pub struct Block {
    pub network: Ipv4Network,
    pub geoname_id: u32,
    pub postal_code: String,
    pub latitude_bits: u32,
    pub longitude_bits: u32,
}

/// A place and its names, keyed by `geoname_id`. Absent names are empty.
#[derive(Debug)]
pub struct Location {
    pub geoname_id: u32,
    pub continent_code: String,
    pub continent_name: String,
    pub country_code: String,
    pub country_name: String,
    pub region_code: String,
    pub region_name: String,
    pub province_code: String,
    pub province_name: String,
    pub city_name: String,
    pub timezone: String,
}

impl Block {
    /// A copy of this block.
    pub fn duplicate(&self) -> (r: Block)
        ensures
            r == *self,
    {
        Block {
            network: self.network,
            geoname_id: self.geoname_id,
            postal_code: self.postal_code.clone(),
            latitude_bits: self.latitude_bits,
            longitude_bits: self.longitude_bits,
        }
    }
}

impl Location {
    /// A copy of this location.
    pub fn duplicate(&self) -> (r: Location)
        ensures
            r == *self,
    {
        Location {
            geoname_id: self.geoname_id,
            continent_code: self.continent_code.clone(),
            continent_name: self.continent_name.clone(),
            country_code: self.country_code.clone(),
            country_name: self.country_name.clone(),
            region_code: self.region_code.clone(),
            region_name: self.region_name.clone(),
            province_code: self.province_code.clone(),
            province_name: self.province_name.clone(),
            city_name: self.city_name.clone(),
            timezone: self.timezone.clone(),
        }
    }
}

/// A row carries an identifier and both coordinates: only such rows place an address.
pub open spec fn is_complete(r: RawBlock) -> bool {
    r.geoname_id is Some && r.latitude_bits is Some && r.longitude_bits is Some
}

/// The complete rows, in their order.
pub open spec fn complete_rows(rows: Seq<RawBlock>) -> Seq<RawBlock>
    decreases rows.len(),
{
    if rows.len() == 0 {
        Seq::empty()
    } else {
        let rest = complete_rows(rows.drop_last());
        if is_complete(rows.last()) {
            rest.push(rows.last())
        } else {
            rest
        }
    }
}

/// `b` is the block that complete row `r` describes.
pub open spec fn admits(r: RawBlock, b: Block) -> bool {
    &&& cidr_of(r.network@) == Some((b.network.spec_addr(), b.network.spec_prefix_len()))
    &&& r.geoname_id == Some(b.geoname_id)
    &&& r.postal_code == b.postal_code
    &&& r.latitude_bits == Some(b.latitude_bits)
    &&& r.longitude_bits == Some(b.longitude_bits)
}

/// Drops the incomplete rows and reads the network of each other one. Fails with
/// `InvalidNetwork` when the network of some complete row is not CIDR text.
pub fn admit_blocks(rows: &Vec<RawBlock>) -> (r: Result<Vec<Block>, GeoError>)
    ensures
        ({
            let complete = complete_rows(rows@);
            match r {
                Ok(blocks) => {
                    &&& forall|i: int| 0 <= i < complete.len() ==> cidr_of(#[trigger] complete[i].network@) is Some
                    &&& blocks@.len() == complete.len()
                    &&& forall|i: int| 0 <= i < complete.len() ==> admits(#[trigger] complete[i], blocks@[i])
                },
                Err(e) => {
                    &&& e == GeoError::InvalidNetwork
                    &&& exists|i: int| 0 <= i < complete.len() && cidr_of(#[trigger] complete[i].network@) is None
                },
            }
        }),
{
    let mut blocks: Vec<Block> = Vec::new();
    let mut i: usize = 0;
    while i < rows.len()
        invariant
            i <= rows.len(),
            ({
                let done = complete_rows(rows@.take(i as int));
                &&& forall|j: int| 0 <= j < done.len() ==> cidr_of(#[trigger] done[j].network@) is Some
                &&& blocks@.len() == done.len()
                &&& forall|j: int| 0 <= j < done.len() ==> admits(#[trigger] done[j], blocks@[j])
            }),
        decreases rows.len() - i,
    {
        let row = &rows[i];
        proof {
            assert(rows@.take(i + 1).drop_last() =~= rows@.take(i as int));
        }
        match (row.geoname_id, row.latitude_bits, row.longitude_bits) {
            (Some(id), Some(lat), Some(lon)) => {
                match Ipv4Network::parse(row.network.as_str()) {
                    Some(n) => {
                        blocks.push(
                            Block {
                                network: n,
                                geoname_id: id,
                                postal_code: row.postal_code.clone(),
                                latitude_bits: lat,
                                longitude_bits: lon,
                            },
                        );
                    },
                    None => {
                        proof {
                            lemma_complete_rows_prefix(rows@, (i + 1) as int);
                            let done = complete_rows(rows@.take(i + 1));
                            assert(done[done.len() - 1] == rows@[i as int]);
                        }
                        return Err(GeoError::InvalidNetwork);
                    },
                }
            },
            _ => {},
        }
        i = i + 1;
    }
    proof {
        assert(rows@.take(rows@.len() as int) =~= rows@);
    }
    Ok(blocks)
}

/// The complete rows of a prefix are a prefix of the complete rows.
proof fn lemma_complete_rows_prefix(rows: Seq<RawBlock>, n: int)
    requires
        0 <= n <= rows.len(),
    ensures
        complete_rows(rows.take(n)).len() <= complete_rows(rows).len(),
        forall|j: int| 0 <= j < complete_rows(rows.take(n)).len() ==> #[trigger] complete_rows(rows.take(n))[j]
            == complete_rows(rows)[j],
    decreases rows.len(),
{
    if n < rows.len() {
        lemma_complete_rows_prefix(rows.drop_last(), n);
        assert(rows.drop_last().take(n) =~= rows.take(n));
    } else {
        assert(rows.take(n) =~= rows);
    }
}

} // verus!

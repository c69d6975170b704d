use vstd::prelude::*;
use std::collections::HashMap;
use crate::error::{RtsError, info_table_error};

verus! {

broadcast use vstd::std_specs::hash::group_hash_axioms;

/// Identifies a datatype: an index into the info table.
pub type Datatype = u32;

/// A one-byte constructor tag of a packed value.
pub type PackedTag = u8;

/// End of a chunk; the next 8 bytes point to the continuation chunk.
pub const REDIRECTION_TAG: PackedTag = 255;

/// A pointer to a value elsewhere; the next 8 bytes are that pointer.
pub const INDIRECTION_TAG: PackedTag = 254;

/// A live write cursor; the next 8 bytes are the address of its frame.
pub const CAUTERIZED_TAG: PackedTag = 253;

/// Already evacuated; the next 8 bytes are the address of the copy.
pub const COPIED_TO_TAG: PackedTag = 252;

/// Filler over evacuated bytes that hold no forwarding pointer.
pub const COPIED_TAG: PackedTag = 251;

/// Tags from here up are reserved for the collector.
pub const FIRST_RESERVED_TAG: PackedTag = 251;

/// The layout of one data constructor.
#[derive(Debug)]
pub struct DataconInfo {
    /// Bytes before the first packed field.
    pub scalar_bytes: u8,
    /// Number of scalar fields.
    pub num_scalars: u8,
    /// Number of packed fields.
    pub num_packed: u8,
    /// Field types of the packed children, in layout order.
    pub field_tys: Vec<Datatype>,
}

/// The abstract content of a `DataconInfo`.
pub ghost struct DataconSpec {
    pub scalar_bytes: u8,
    pub num_scalars: u8,
    pub num_packed: u8,
    pub field_tys: Seq<Datatype>,
}

impl View for DataconInfo {
    type V = DataconSpec;

    open spec fn view(&self) -> DataconSpec {
        DataconSpec {
            scalar_bytes: self.scalar_bytes,
            num_scalars: self.num_scalars,
            num_packed: self.num_packed,
            field_tys: self.field_tys@,
        }
    }
}

/// The info-table entry of a datatype.
#[derive(Debug)]
pub enum DatatypeInfo {
    /// A scalar of the given width in bytes.
    Scalar(u8),
    /// A packed type: the layout of each of its constructors.
    Packed(HashMap<PackedTag, DataconInfo>),
}

/// The abstract content of a `DatatypeInfo`.
pub ghost enum DatatypeSpec {
    Scalar(u8),
    Packed(Map<PackedTag, DataconSpec>),
}

impl View for DatatypeInfo {
    type V = DatatypeSpec;

    open spec fn view(&self) -> DatatypeSpec {
        match self {
            DatatypeInfo::Scalar(w) => DatatypeSpec::Scalar(*w),
            DatatypeInfo::Packed(m) => DatatypeSpec::Packed(
                m@.map_values(|c: DataconInfo| c@),
            ),
        }
    }
}

/// The registry of datatype layouts; usable once initialized.
pub struct InfoTable {
    pub initialized: bool,
    pub table: HashMap<Datatype, DatatypeInfo>,
}

impl View for InfoTable {
    type V = Option<Map<Datatype, DatatypeSpec>>;

    /// `None` before initialization, then the entry of each datatype.
    open spec fn view(&self) -> Option<Map<Datatype, DatatypeSpec>> {
        if self.initialized {
            Some(self.table@.map_values(|d: DatatypeInfo| d@))
        } else {
            None
        }
    }
}

impl InfoTable {
    /// A table that has not been initialized yet.
    pub fn new() -> (r: InfoTable)
        ensures
            r@ is None,
    {
        InfoTable { initialized: false, table: HashMap::new() }
    }

    /// The entry of `datatype`, if the table is initialized and has one.
    pub fn lookup(&self, datatype: Datatype) -> (r: Option<&DatatypeInfo>)
        ensures
            match r {
                Some(d) => self@ is Some && self@->Some_0.contains_key(datatype)
                    && self@->Some_0[datatype] == d@,
                None => self@ is None || !self@->Some_0.contains_key(datatype),
            },
    {
        if !self.initialized {
            return None;
        }
        self.table.get(&datatype)
    }
}

impl DatatypeInfo {
    /// The layout of constructor `tag`, if this is a packed entry that has it.
    pub fn datacon(&self, tag: PackedTag) -> (r: Option<&DataconInfo>)
        ensures
            match r {
                Some(c) => self@ is Packed && self@->Packed_0.contains_key(tag)
                    && self@->Packed_0[tag] == c@,
                None => !(self@ is Packed && self@->Packed_0.contains_key(tag)),
            },
    {
        match self {
            DatatypeInfo::Scalar(_) => None,
            DatatypeInfo::Packed(m) => m.get(&tag),
        }
    }
}

/// Makes the table usable; fails if it already is.
pub fn info_table_initialize(tbl: &mut InfoTable) -> (r: Result<(), RtsError>)
    ensures
        old(tbl)@ is None ==> r is Ok && final(tbl)@ == Some(Map::<Datatype, DatatypeSpec>::empty()),
        old(tbl)@ is Some ==> r is Err && r->Err_0 is InfoTable && final(tbl)@ == old(tbl)@,
{
    if tbl.initialized {
        return Err(info_table_error("Couldn't initialize info-table."));
    }
    tbl.table = HashMap::new();
    tbl.initialized = true;
    assert(tbl@->Some_0 =~= Map::<Datatype, DatatypeSpec>::empty());
    Ok(())
}

/// Registers `datatype` as a scalar of width `size`, replacing any entry.
pub fn info_table_insert_scalar(tbl: &mut InfoTable, datatype: Datatype, size: u8) -> (r: Result<
    (),
    RtsError,
>)
    ensures
        old(tbl)@ is None ==> r is Err && r->Err_0 is InfoTable && final(tbl)@ == old(tbl)@,
        old(tbl)@ is Some ==> r is Ok && final(tbl)@ == Some(
            old(tbl)@->Some_0.insert(datatype, DatatypeSpec::Scalar(size)),
        ),
{
    if !tbl.initialized {
        return Err(info_table_error("INFO_TABLE not initialized."));
    }
    tbl.table.insert(datatype, DatatypeInfo::Scalar(size));
    assert(tbl@->Some_0 =~= old(tbl)@->Some_0.insert(datatype, DatatypeSpec::Scalar(size)));
    Ok(())
}

/// Whether registering constructor `tag` of `datatype` succeeds on table `t`.
pub open spec fn can_insert_dcon(
    t: Map<Datatype, DatatypeSpec>,
    datatype: Datatype,
    tag: PackedTag,
) -> bool {
    &&& tag < FIRST_RESERVED_TAG
    &&& t.contains_key(datatype) ==> (t[datatype] is Packed && !t[datatype]->Packed_0.contains_key(
        tag,
    ))
}

/// Table `t` after registering constructor `tag` of `datatype` with layout `c`.
pub open spec fn with_dcon(
    t: Map<Datatype, DatatypeSpec>,
    datatype: Datatype,
    tag: PackedTag,
    c: DataconSpec,
) -> Map<Datatype, DatatypeSpec> {
    let dcons = if t.contains_key(datatype) {
        t[datatype]->Packed_0
    } else {
        Map::empty()
    };
    t.insert(datatype, DatatypeSpec::Packed(dcons.insert(tag, c)))
}

/// Registers the layout of constructor `datacon` of the packed type `datatype`.
/// Fails if the table is not initialized, if the tag is reserved for the
/// collector, if `datatype` is a scalar, or if the constructor is already there.
pub fn info_table_insert_packed_dcon(
    tbl: &mut InfoTable,
    datatype: Datatype,
    datacon: PackedTag,
    scalar_bytes: u8,
    num_scalars: u8,
    num_packed: u8,
    field_tys: Vec<Datatype>,
) -> (r: Result<(), RtsError>)
    ensures
        old(tbl)@ is None ==> r is Err && r->Err_0 is InfoTable && final(tbl)@ == old(tbl)@,
        old(tbl)@ is Some && !can_insert_dcon(old(tbl)@->Some_0, datatype, datacon) ==> r is Err
            && r->Err_0 is InfoTable && final(tbl)@ == old(tbl)@,
        old(tbl)@ is Some && can_insert_dcon(old(tbl)@->Some_0, datatype, datacon) ==> r is Ok
            && final(tbl)@ == Some(
            with_dcon(
                old(tbl)@->Some_0,
                datatype,
                datacon,
                DataconSpec { scalar_bytes, num_scalars, num_packed, field_tys: field_tys@ },
            ),
        ),
{
    if !tbl.initialized {
        return Err(info_table_error("INFO_TABLE not initialized."));
    }
    if datacon >= FIRST_RESERVED_TAG {
        return Err(info_table_error("Data constructor tag is reserved for the collector."));
    }
    let ghost t0 = old(tbl)@->Some_0;
    let ghost c = DataconSpec { scalar_bytes, num_scalars, num_packed, field_tys: field_tys@ };
    let info = DataconInfo { scalar_bytes, num_scalars, num_packed, field_tys };
    match tbl.table.remove(&datatype) {
        None => {
            let mut m: HashMap<PackedTag, DataconInfo> = HashMap::new();
            m.insert(datacon, info);
            tbl.table.insert(datatype, DatatypeInfo::Packed(m));
            assert(tbl@->Some_0 =~= with_dcon(t0, datatype, datacon, c)) by {
                assert(DatatypeSpec::Packed(m@.map_values(|c: DataconInfo| c@))
                    == DatatypeSpec::Packed(Map::<PackedTag, DataconSpec>::empty().insert(datacon, c)))
                    by {
                    assert(m@.map_values(|c: DataconInfo| c@) =~= Map::<
                        PackedTag,
                        DataconSpec,
                    >::empty().insert(datacon, c));
                }
            }
            Ok(())
        },
        Some(DatatypeInfo::Packed(mut m)) => {
            if m.contains_key(&datacon) {
                tbl.table.insert(datatype, DatatypeInfo::Packed(m));
                assert(tbl@->Some_0 =~= t0);
                return Err(info_table_error("Data constructor already present in the info-table."));
            }
            let ghost m0 = m@;
            m.insert(datacon, info);
            tbl.table.insert(datatype, DatatypeInfo::Packed(m));
            assert(tbl@->Some_0 =~= with_dcon(t0, datatype, datacon, c)) by {
                assert(m@.map_values(|c: DataconInfo| c@) =~= m0.map_values(|c: DataconInfo| c@).insert(
                    datacon,
                    c,
                ));
            }
            Ok(())
        },
        Some(DatatypeInfo::Scalar(w)) => {
            tbl.table.insert(datatype, DatatypeInfo::Scalar(w));
            assert(tbl@->Some_0 =~= t0);
            Err(info_table_error("Expected a packed info-table entry, got scalar."))
        },
    }
}

/// Once a constructor is registered, registering the same datatype and tag
/// again is refused; `info_table_insert_packed_dcon` then fails with an
/// info-table error and leaves the table as it was.
pub proof fn lemma_duplicate_dcon_refused(
    t: Map<Datatype, DatatypeSpec>,
    datatype: Datatype,
    tag: PackedTag,
    c: DataconSpec,
)
    ensures
        t.contains_key(datatype) && t[datatype] is Packed && t[datatype]->Packed_0.contains_key(tag)
            ==> !can_insert_dcon(t, datatype, tag),
        can_insert_dcon(t, datatype, tag) ==> !can_insert_dcon(
            with_dcon(t, datatype, tag, c),
            datatype,
            tag,
        ),
{
}

} // verus!

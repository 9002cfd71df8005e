//! The ring model and the resolution of a partition to its devices.

use vstd::prelude::*;
use crate::ring::container::{
    decode_payload, decoded, document_of, lemma_decoded_shape, metadata_text, partition_count_of, rows_of,
};
use crate::ring::gzip::{gunzip, gunzip_output};
use crate::ring::metadata::slot_view;

pub use crate::ring::error::{FormatError, RingError};
pub use crate::ring::metadata::{DevData, DevDataView, RingData, RingDataView, Weight};

pub mod bytes;
pub mod container;
pub mod error;
pub mod gzip;
pub mod json;
pub mod limits;
pub mod metadata;

verus! {

/// A decoded ring: the devices that are present, the partition shift and
/// the assignment table, one row for each replica.
#[derive(Debug)]
pub struct Ring {
    devs: Vec<DevData>,
    part_shift: u8,
    r2p2d_id: Vec<Vec<u16>>,
}

/// The mathematical content of a `Ring`.
pub struct RingView {
    pub devs: Seq<DevDataView>,
    pub part_shift: u8,
    pub table: Seq<Seq<u16>>,
}

/// The devices of a list, each by its content.
pub open spec fn devices_of(devs: Vec<DevData>) -> Seq<DevDataView> {
    Seq::new(devs@.len(), |i: int| devs@[i]@)
}

/// The devices of a list of references, each by its content.
pub open spec fn nodes_of(nodes: Vec<&DevData>) -> Seq<DevDataView> {
    Seq::new(nodes@.len(), |i: int| nodes@[i]@)
}

/// The slots that hold a device, in their order.
pub open spec fn present(slots: Seq<Option<DevDataView>>) -> Seq<DevDataView>
    decreases slots.len(),
{
    if slots.len() == 0 {
        Seq::empty()
    } else {
        match slots.last() {
            Some(dev) => present(slots.drop_last()).push(dev),
            None => present(slots.drop_last()),
        }
    }
}

/// Whether every row of a table has the length that the shift calls for.
pub open spec fn table_fits(table: Seq<Seq<u16>>, part_shift: u8) -> bool {
    &&& part_shift <= 32
    &&& forall|r: int| 0 <= r < table.len() ==> (#[trigger] table[r]).len() == partition_count_of(part_shift)
}

/// The first device of a list that bears `id`.
pub open spec fn find_device(devs: Seq<DevDataView>, id: int) -> Option<DevDataView>
    decreases devs.len(),
{
    if devs.len() == 0 {
        None
    } else if devs[0].id == id {
        Some(devs[0])
    } else {
        find_device(devs.drop_first(), id)
    }
}

/// The device that one row assigns to a partition: none where the row is
/// too short for the partition, none where its entry names no device.
pub open spec fn row_device(devs: Seq<DevDataView>, row: Seq<u16>, part: int) -> Option<DevDataView> {
    if 0 <= part < row.len() {
        find_device(devs, row[part] as int)
    } else {
        None
    }
}

/// The devices that the first `rows` rows assign to a partition, in the
/// order of the rows; a row without a device adds nothing.
pub open spec fn nodes_in(devs: Seq<DevDataView>, table: Seq<Seq<u16>>, part: int, rows: nat) -> Seq<
    DevDataView,
>
    decreases rows,
{
    if rows == 0 {
        Seq::empty()
    } else {
        let before = nodes_in(devs, table, part, (rows - 1) as nat);
        match row_device(devs, table[rows - 1], part) {
            Some(dev) => before.push(dev),
            None => before,
        }
    }
}

/// The devices that a ring assigns to a partition.
pub open spec fn part_nodes(ring: RingView, part: int) -> Seq<DevDataView> {
    nodes_in(ring.devs, ring.table, part, ring.table.len())
}

/// What a stored ring file decodes to: the stream inflated, the payload
/// decoded, the empty device slots dropped.
pub open spec fn ring_decoded(compressed: Seq<u8>) -> Result<RingView, RingError> {
    match gunzip_output(compressed) {
        None => Err(RingError::IoError),
        Some(payload) => match decoded(payload) {
            Err(e) => Err(RingError::Format(e)),
            Ok((meta, table)) => Ok(
                RingView { devs: present(meta.devs), part_shift: meta.part_shift, table },
            ),
        },
    }
}

/// What a stored ring file decodes to before the ring is assembled.
pub open spec fn file_decoded(compressed: Seq<u8>) -> Result<(RingDataView, Seq<Seq<u16>>), RingError> {
    match gunzip_output(compressed) {
        None => Err(RingError::IoError),
        Some(payload) => match decoded(payload) {
            Err(e) => Err(RingError::Format(e)),
            Ok(parts) => Ok(parts),
        },
    }
}

/// Inflates the content of a ring file and decodes the payload into the
/// metadata and the assignment table.
pub fn decode_ring_file(compressed: &[u8]) -> (r: Result<(RingData, Vec<Vec<u16>>), RingError>)
    ensures
        match r {
            Ok((meta, table)) => file_decoded(compressed@) == Ok::<
                (RingDataView, Seq<Seq<u16>>),
                RingError,
            >((meta@, rows_of(table))),
            Err(e) => file_decoded(compressed@) == Err::<(RingDataView, Seq<Seq<u16>>), RingError>(e),
        },
{
    let payload = match gunzip(compressed) {
        Ok(payload) => payload,
        Err(_) => {
            return Err(RingError::IoError);
        },
    };
    match decode_payload(payload.as_slice()) {
        Ok(parts) => Ok(parts),
        Err(e) => Err(RingError::Format(e)),
    }
}

impl View for Ring {
    type V = RingView;

    closed spec fn view(&self) -> RingView {
        RingView { devs: devices_of(self.devs), part_shift: self.part_shift, table: rows_of(self.r2p2d_id) }
    }
}

impl Ring {
    #[verifier::type_invariant]
    spec fn well_formed(&self) -> bool {
        table_fits(rows_of(self.r2p2d_id), self.part_shift)
    }

    /// Decodes the content of a ring file into a ring.
    ///
    /// Fails with `IoError` where the content does not inflate, and with the
    /// payload's defect where it does; a ring that comes out has a row for
    /// each replica, each row as long as the shift calls for.
    pub fn decode_ring_file(compressed: &[u8]) -> (r: Result<Ring, RingError>)
        ensures
            match r {
                Ok(ring) => ring_decoded(compressed@) == Ok::<RingView, RingError>(ring@),
                Err(e) => ring_decoded(compressed@) == Err::<RingView, RingError>(e),
            },
            r matches Ok(ring) ==> table_fits(ring@.table, ring@.part_shift),
    {
        match decode_ring_file(compressed) {
            Ok((meta, table)) => {
                proof {
                    let payload = gunzip_output(compressed@)->0;
                    lemma_decoded_shape(payload, document_of(metadata_text(payload)));
                }
                Ok(Ring::rd_to_ring(meta, table))
            },
            Err(e) => Err(e),
        }
    }

    /// The devices of the ring, in the order of the metadata.
    pub fn devices(&self) -> (devs: &Vec<DevData>)
        ensures
            devices_of(*devs) == self@.devs,
    {
        &self.devs
    }

    /// The partition shift that the ring was decoded with.
    pub fn part_shift(&self) -> (shift: u8)
        ensures
            shift == self@.part_shift,
            shift <= 32,
    {
        proof {
            use_type_invariant(self);
        }
        self.part_shift
    }

    /// The number of replicas: the rows of the assignment table.
    pub fn replica_count(&self) -> (n: usize)
        ensures
            n == self@.table.len(),
    {
        self.r2p2d_id.len()
    }

    /// The number of partitions: the length of every row.
    pub fn partition_count(&self) -> (n: usize)
        requires
            self@.table.len() > 0,
        ensures
            n == partition_count_of(self@.part_shift),
            self@.part_shift <= 32,
            forall|r: int| 0 <= r < self@.table.len() ==> (#[trigger] self@.table[r]).len() == n,
    {
        proof {
            use_type_invariant(self);
            assert(rows_of(self.r2p2d_id)[0].len() == partition_count_of(self.part_shift));
        }
        self.r2p2d_id[0].len()
    }

    /// The devices that hold the replicas of a partition, in the order of
    /// the replica rows. A row that is too short for the partition, or whose
    /// entry names no device, adds nothing.
    pub fn get_part_nodes(&self, part: u32) -> (nodes: Vec<&DevData>)
        ensures
            nodes_of(nodes) == part_nodes(self@, part as int),
            nodes@.len() <= self@.table.len(),
            forall|k: int| 0 <= k < nodes@.len() ==> self@.devs.contains((#[trigger] nodes@[k])@),
    {
        let mut nodes: Vec<&DevData> = Vec::new();
        let column: usize = part as usize;
        let mut r: usize = 0;
        while r < self.r2p2d_id.len()
            invariant
                r <= self.r2p2d_id@.len(),
                column == part,
                nodes_of(nodes) == nodes_in(self@.devs, self@.table, part as int, r as nat),
                nodes@.len() <= r,
                forall|k: int| 0 <= k < nodes@.len() ==> self@.devs.contains((#[trigger] nodes@[k])@),
            decreases self.r2p2d_id@.len() - r,
        {
            let row = &self.r2p2d_id[r];
            let ghost before = nodes_of(nodes);
            assert(self@.table[r as int] == row@);
            if column < row.len() {
                match self.dev_by_id(row[column] as usize) {
                    Some(dev) => {
                        proof {
                            lemma_find_device(self@.devs, row[column as int] as int);
                        }
                        nodes.push(dev);
                        assert(nodes_of(nodes) =~= before.push(dev@));
                    },
                    None => {},
                }
            }
            r = r + 1;
        }
        nodes
    }

    /// The first device that bears an identifier, by a scan of the list.
    pub fn dev_by_id(&self, id: usize) -> (r: Option<&DevData>)
        ensures
            match r {
                Some(dev) => find_device(self@.devs, id as int) == Some(dev@),
                None => find_device(self@.devs, id as int) is None,
            },
    {
        let mut i: usize = 0;
        assert(self@.devs.skip(0) == self@.devs);
        while i < self.devs.len()
            invariant
                i <= self.devs@.len(),
                find_device(self@.devs, id as int) == find_device(self@.devs.skip(i as int), id as int),
            decreases self.devs@.len() - i,
        {
            assert(self@.devs.skip(i as int)[0] == self.devs@[i as int]@);
            if self.devs[i].id as usize == id {
                return Some(&self.devs[i]);
            }
            assert(self@.devs.skip(i as int).drop_first() == self@.devs.skip(i as int + 1));
            i = i + 1;
        }
        None
    }

    /// Assembles a ring from decoded metadata and an assignment table: the
    /// devices are the slots that are not empty, in their order.
    pub fn rd_to_ring(meta: RingData, table: Vec<Vec<u16>>) -> (ring: Ring)
        requires
            table_fits(rows_of(table), meta.part_shift),
        ensures
            ring@.devs == present(meta@.devs),
            ring@.part_shift == meta.part_shift,
            ring@.table == rows_of(table),
    {
        let ghost slots = meta@.devs;
        let RingData { devs: all, part_shift, replica_count: _ } = meta;
        let mut devs: Vec<DevData> = Vec::new();
        assert(slots.take(0) =~= Seq::<Option<DevDataView>>::empty());
        for slot in it: all
            invariant
                it.seq() == all@,
                slots == Seq::new(all@.len(), |i: int| slot_view(all@[i])),
                devices_of(devs) == present(slots.take(it.index() as int)),
        {
            let ghost kept = devices_of(devs);
            assert(slots.take(it.index() + 1).drop_last() =~= slots.take(it.index() as int));
            assert(slots.take(it.index() + 1).last() == slot_view(slot));
            match slot {
                Some(dev) => {
                    devs.push(dev);
                    assert(devices_of(devs) =~= kept.push(dev@));
                },
                None => {},
            }
        }
        assert(slots.take(all@.len() as int) =~= slots);
        Ring { devs, part_shift, r2p2d_id: table }
    }
}

/// The rows among the first `rows` that assign a device to a partition, in
/// ascending order.
pub open spec fn hit_rows(devs: Seq<DevDataView>, table: Seq<Seq<u16>>, part: int, rows: nat) -> Seq<int>
    decreases rows,
{
    if rows == 0 {
        Seq::empty()
    } else {
        let before = hit_rows(devs, table, part, (rows - 1) as nat);
        if row_device(devs, table[rows - 1], part) is Some {
            before.push(rows - 1)
        } else {
            before
        }
    }
}

/// Whether some device of a list bears `id`.
pub open spec fn has_device(devs: Seq<DevDataView>, id: int) -> bool {
    exists|i: int| 0 <= i < devs.len() && (#[trigger] devs[i]).id == id
}

/// A lookup finds a device exactly where one bears the identifier, and then
/// it is the first such device of the list.
pub proof fn lemma_find_device(devs: Seq<DevDataView>, id: int)
    ensures
        find_device(devs, id) is Some <==> has_device(devs, id),
        find_device(devs, id) matches Some(dev) ==> exists|i: int|
            0 <= i < devs.len() && #[trigger] devs[i] == dev && dev.id == id && forall|j: int|
                0 <= j < i ==> (#[trigger] devs[j]).id != id,
    decreases devs.len(),
{
    if devs.len() == 0 {
    } else if devs[0].id == id {
        assert(devs[0] == find_device(devs, id)->0);
    } else {
        let rest = devs.drop_first();
        lemma_find_device(rest, id);
        if has_device(devs, id) {
            let i = choose|i: int| 0 <= i < devs.len() && (#[trigger] devs[i]).id == id;
            assert(rest[i - 1].id == id);
        }
        if has_device(rest, id) {
            let i = choose|i: int| 0 <= i < rest.len() && (#[trigger] rest[i]).id == id;
            assert(devs[i + 1].id == id);
        }
        if find_device(devs, id) is Some {
            let dev = find_device(devs, id)->0;
            let i = choose|i: int|
                0 <= i < rest.len() && #[trigger] rest[i] == dev && dev.id == id && forall|j: int|
                    0 <= j < i ==> (#[trigger] rest[j]).id != id;
            assert(devs[i + 1] == dev);
            assert forall|j: int| 0 <= j < i + 1 implies (#[trigger] devs[j]).id != id by {
                if j > 0 {
                    assert(rest[j - 1].id != id);
                }
            }
        }
    }
}

/// Whether no two devices of a list bear one identifier.
pub open spec fn unique_ids(devs: Seq<DevDataView>) -> bool {
    forall|i: int, j: int| 0 <= i < j < devs.len() ==> (#[trigger] devs[i]).id != (#[trigger] devs[j]).id
}

/// Where identifiers are unique, a lookup finds the one device that bears
/// the identifier, wherever it stands in the list.
pub proof fn lemma_unique_lookup(devs: Seq<DevDataView>, at: int)
    requires
        unique_ids(devs),
        0 <= at < devs.len(),
    ensures
        find_device(devs, devs[at].id as int) == Some(devs[at]),
{
    let id = devs[at].id as int;
    lemma_find_device(devs, id);
    let found = find_device(devs, id)->0;
    let i = choose|i: int|
        0 <= i < devs.len() && #[trigger] devs[i] == found && found.id == id && forall|j: int|
            0 <= j < i ==> (#[trigger] devs[j]).id != id;
    if i < at {
        assert(devs[i].id != devs[at].id);
    } else if at < i {
        assert(devs[at].id != devs[i].id);
    }
}

/// The devices of a partition follow the replica rows: there are as many as
/// there are rows that assign one, never more than there are rows; the k-th
/// device is the one that the k-th such row assigns; and those rows ascend.
pub proof fn lemma_nodes_follow_rows(devs: Seq<DevDataView>, table: Seq<Seq<u16>>, part: int, rows: nat)
    requires
        rows <= table.len(),
    ensures
        nodes_in(devs, table, part, rows).len() == hit_rows(devs, table, part, rows).len(),
        nodes_in(devs, table, part, rows).len() <= rows,
        forall|k: int|
            0 <= k < hit_rows(devs, table, part, rows).len() ==> {
                let r = #[trigger] hit_rows(devs, table, part, rows)[k];
                &&& 0 <= r < rows
                &&& row_device(devs, table[r], part) == Some(nodes_in(devs, table, part, rows)[k])
            },
        forall|j: int, k: int|
            0 <= j < k < hit_rows(devs, table, part, rows).len() ==> hit_rows(devs, table, part, rows)[j]
                < hit_rows(devs, table, part, rows)[k],
        forall|r: int|
            0 <= r < rows && row_device(devs, #[trigger] table[r], part) is Some ==> hit_rows(
                devs,
                table,
                part,
                rows,
            ).contains(r),
    decreases rows,
{
    if rows > 0 {
        let before = (rows - 1) as nat;
        lemma_nodes_follow_rows(devs, table, part, before);
        let hits = hit_rows(devs, table, part, rows);
        let earlier = hit_rows(devs, table, part, before);
        assert forall|r: int| 0 <= r < rows && row_device(devs, #[trigger] table[r], part) is Some implies hits.contains(
            r,
        ) by {
            if r < before {
                let k = choose|k: int| 0 <= k < earlier.len() && earlier[k] == r;
                assert(hits[k] == r);
            } else {
                assert(hits[hits.len() - 1] == r);
            }
        }
    }
}

/// A row whose entry for a partition names a device that is not in the list
/// adds nothing to the devices of that partition, and is not among the rows
/// that assign one.
pub proof fn lemma_dangling_entry_skipped(devs: Seq<DevDataView>, table: Seq<Seq<u16>>, part: int, row: int)
    requires
        0 <= row < table.len(),
        0 <= part < table[row].len(),
        !has_device(devs, table[row][part] as int),
    ensures
        row_device(devs, table[row], part) is None,
        nodes_in(devs, table, part, (row + 1) as nat) == nodes_in(devs, table, part, row as nat),
        !hit_rows(devs, table, part, table.len()).contains(row),
{
    lemma_find_device(devs, table[row][part] as int);
    lemma_nodes_follow_rows(devs, table, part, table.len());
}

/// A partition beyond the end of every row has no devices.
pub proof fn lemma_partition_out_of_range(devs: Seq<DevDataView>, table: Seq<Seq<u16>>, part: int, rows: nat)
    requires
        rows <= table.len(),
        forall|r: int| 0 <= r < table.len() ==> (#[trigger] table[r]).len() <= part,
    ensures
        nodes_in(devs, table, part, rows) == Seq::<DevDataView>::empty(),
    decreases rows,
{
    if rows > 0 {
        lemma_partition_out_of_range(devs, table, part, (rows - 1) as nat);
    }
}

/// The number of slots that hold a device.
pub open spec fn count_present(slots: Seq<Option<DevDataView>>) -> nat
    decreases slots.len(),
{
    if slots.len() == 0 {
        0
    } else if slots.last() is Some {
        count_present(slots.drop_last()) + 1
    } else {
        count_present(slots.drop_last())
    }
}

/// Dropping the empty slots keeps as many devices as there are slots that
/// hold one, and every device kept is the content of such a slot.
pub proof fn lemma_present(slots: Seq<Option<DevDataView>>)
    ensures
        present(slots).len() == count_present(slots),
        present(slots).len() <= slots.len(),
        forall|k: int|
            0 <= k < present(slots).len() ==> slots.contains(Some(#[trigger] present(slots)[k])),
        forall|i: int|
            0 <= i < slots.len() && (#[trigger] slots[i]) is Some ==> present(slots).contains(slots[i]->0),
    decreases slots.len(),
{
    if slots.len() > 0 {
        let front = slots.drop_last();
        lemma_present(front);
        assert forall|k: int| 0 <= k < present(slots).len() implies slots.contains(
            Some(#[trigger] present(slots)[k]),
        ) by {
            if k < present(front).len() {
                let dev = present(front)[k];
                let i = choose|i: int| 0 <= i < front.len() && front[i] == Some(dev);
                assert(slots[i] == Some(dev));
            } else {
                assert(slots[slots.len() - 1] == Some(present(slots)[k]));
            }
        }
        assert forall|i: int| 0 <= i < slots.len() && (#[trigger] slots[i]) is Some implies present(
            slots,
        ).contains(slots[i]->0) by {
            if i < front.len() {
                assert(front[i] == slots[i]);
                let k = choose|k: int| 0 <= k < present(front).len() && present(front)[k] == front[i]->0;
                assert(present(slots)[k] == slots[i]->0);
            } else {
                assert(present(slots)[present(slots).len() - 1] == slots[i]->0);
            }
        }
    }
}

/// A ring that a file decodes to has the shift of the metadata, a row for
/// each replica that the metadata counts, `2^(32 - part_shift)` entries in
/// every row, and for devices the slots of the metadata that are not empty.
pub proof fn lemma_ring_decoded(compressed: Seq<u8>)
    requires
        ring_decoded(compressed) is Ok,
    ensures
        file_decoded(compressed) is Ok,
        ({
            let ring = ring_decoded(compressed)->Ok_0;
            let (meta, table) = file_decoded(compressed)->Ok_0;
            &&& ring.part_shift == meta.part_shift
            &&& ring.table == table
            &&& ring.table.len() == meta.replica_count
            &&& table_fits(ring.table, ring.part_shift)
            &&& ring.devs == present(meta.devs)
            &&& ring.devs.len() == count_present(meta.devs)
        }),
{
    let payload = gunzip_output(compressed)->0;
    lemma_decoded_shape(payload, document_of(metadata_text(payload)));
    lemma_present(decoded(payload)->Ok_0.0.devs);
}

} // verus!

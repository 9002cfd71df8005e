//! The metadata section: device records and the two layout parameters, read
//! out of a parsed JSON value.

use vstd::prelude::*;
use crate::ring::json::{lemma_json_view, members_view, JsonValue, JsonView};

verus! {

/// A capacity weight, kept as the number that the metadata wrote: the core
/// carries it and never computes with it.
#[derive(Clone, Copy, Debug, PartialEq, Eq, Structural)]
pub enum Weight {
    /// A whole number that was read with a sign.
    Signed(i64),
    /// A whole number that was read without a sign.
    Unsigned(u64),
    /// A real number, by its IEEE-754 double bits.
    Real(u64),
}

/// The mathematical content of a `Weight`: all of it but the bits of a real
/// number.
pub enum WeightView {
    Signed(i64),
    Unsigned(u64),
    Real,
}

impl View for Weight {
    type V = WeightView;

    open spec fn view(&self) -> WeightView {
        match self {
            Weight::Signed(n) => WeightView::Signed(*n),
            Weight::Unsigned(n) => WeightView::Unsigned(*n),
            Weight::Real(_) => WeightView::Real,
        }
    }
}

/// One storage device.
#[derive(Debug)]
pub struct DevData {
    pub device: String,
    pub id: u32,
    pub ip: String,
    pub port: u16,
    pub region: u16,
    pub replication_ip: String,
    pub replication_port: u16,
    pub weight: Weight,
    pub zone: u16,
}

/// The mathematical content of a `DevData`.
pub struct DevDataView {
    pub device: Seq<char>,
    pub id: u32,
    pub ip: Seq<char>,
    pub port: u16,
    pub region: u16,
    pub replication_ip: Seq<char>,
    pub replication_port: u16,
    pub weight: WeightView,
    pub zone: u16,
}

impl View for DevData {
    type V = DevDataView;

    open spec fn view(&self) -> DevDataView {
        DevDataView {
            device: self.device@,
            id: self.id,
            ip: self.ip@,
            port: self.port,
            region: self.region,
            replication_ip: self.replication_ip@,
            replication_port: self.replication_port,
            weight: self.weight@,
            zone: self.zone,
        }
    }
}

/// The metadata section as decoded: device slots, some of them empty, and
/// the layout parameters of the assignment table.
#[derive(Debug)]
pub struct RingData {
    pub devs: Vec<Option<DevData>>,
    pub part_shift: u8,
    pub replica_count: u8,
}

/// The mathematical content of a `RingData`.
pub struct RingDataView {
    pub devs: Seq<Option<DevDataView>>,
    pub part_shift: u8,
    pub replica_count: u8,
}

/// The content of one device slot.
pub open spec fn slot_view(slot: Option<DevData>) -> Option<DevDataView> {
    match slot {
        Some(dev) => Some(dev@),
        None => None,
    }
}

impl View for RingData {
    type V = RingDataView;

    open spec fn view(&self) -> RingDataView {
        RingDataView {
            devs: Seq::new(self.devs@.len(), |i: int| slot_view(self.devs@[i])),
            part_shift: self.part_shift,
            replica_count: self.replica_count,
        }
    }
}

/// The value of the first member of an object that is keyed `name`.
pub open spec fn member(members: Seq<(Seq<char>, JsonView)>, name: Seq<char>) -> Option<JsonView>
    decreases members.len(),
{
    if members.len() == 0 {
        None
    } else if members[0].0 == name {
        Some(members[0].1)
    } else {
        member(members.drop_first(), name)
    }
}

/// A JSON string's characters; `None` for every other value.
pub open spec fn text_of(value: JsonView) -> Option<Seq<char>> {
    match value {
        JsonView::String(s) => Some(s),
        _ => None,
    }
}

/// A whole JSON number within `0..=max`; `None` for every other value.
pub open spec fn unsigned_of(value: JsonView, max: u64) -> Option<u64> {
    match value {
        JsonView::I64(n) => if 0 <= n && n <= max {
            Some(n as u64)
        } else {
            None
        },
        JsonView::U64(n) => if n <= max {
            Some(n)
        } else {
            None
        },
        _ => None,
    }
}

/// A JSON number as a weight; `None` for every other value.
pub open spec fn weight_of(value: JsonView) -> Option<WeightView> {
    match value {
        JsonView::I64(n) => Some(WeightView::Signed(n)),
        JsonView::U64(n) => Some(WeightView::Unsigned(n)),
        JsonView::F64 => Some(WeightView::Real),
        _ => None,
    }
}

/// The string member `name` of an object.
pub open spec fn text_member(members: Seq<(Seq<char>, JsonView)>, name: Seq<char>) -> Option<Seq<char>> {
    match member(members, name) {
        Some(value) => text_of(value),
        None => None,
    }
}

/// The whole-number member `name` of an object, within `0..=max`.
pub open spec fn unsigned_member(members: Seq<(Seq<char>, JsonView)>, name: Seq<char>, max: u64) -> Option<
    u64,
> {
    match member(members, name) {
        Some(value) => unsigned_of(value, max),
        None => None,
    }
}

/// The numeric member `name` of an object, as a weight.
pub open spec fn weight_member(members: Seq<(Seq<char>, JsonView)>, name: Seq<char>) -> Option<WeightView> {
    match member(members, name) {
        Some(value) => weight_of(value),
        None => None,
    }
}

/// Whether an object has all nine members of a device, each of its type.
pub open spec fn is_device(members: Seq<(Seq<char>, JsonView)>) -> bool {
    &&& text_member(members, "device"@) is Some
    &&& unsigned_member(members, "id"@, 0xffff_ffff) is Some
    &&& text_member(members, "ip"@) is Some
    &&& unsigned_member(members, "port"@, 0xffff) is Some
    &&& unsigned_member(members, "region"@, 0xffff) is Some
    &&& text_member(members, "replication_ip"@) is Some
    &&& unsigned_member(members, "replication_port"@, 0xffff) is Some
    &&& weight_member(members, "weight"@) is Some
    &&& unsigned_member(members, "zone"@, 0xffff) is Some
}

/// The device that a JSON value describes: an object with the members
/// `device`, `ip`, `replication_ip` (strings), `id` (32 bits), `port`,
/// `region`, `replication_port`, `zone` (16 bits each) and `weight` (a
/// number). Members beyond these are ignored.
pub open spec fn device_of(value: JsonView) -> Option<DevDataView> {
    match value {
        JsonView::Object(members) => if is_device(members) {
            Some(
                DevDataView {
                    device: text_member(members, "device"@)->0,
                    id: unsigned_member(members, "id"@, 0xffff_ffff)->0 as u32,
                    ip: text_member(members, "ip"@)->0,
                    port: unsigned_member(members, "port"@, 0xffff)->0 as u16,
                    region: unsigned_member(members, "region"@, 0xffff)->0 as u16,
                    replication_ip: text_member(members, "replication_ip"@)->0,
                    replication_port: unsigned_member(members, "replication_port"@, 0xffff)->0 as u16,
                    weight: weight_member(members, "weight"@)->0,
                    zone: unsigned_member(members, "zone"@, 0xffff)->0 as u16,
                },
            )
        } else {
            None
        },
        _ => None,
    }
}

/// Whether a JSON value can stand in the device list: `null` or a device.
pub open spec fn is_slot(value: JsonView) -> bool {
    value is Null || device_of(value) is Some
}

/// The slot that an admissible value of the device list stands for:
/// `null` is an empty slot.
pub open spec fn slot_of(value: JsonView) -> Option<DevDataView> {
    if value is Null {
        None
    } else {
        device_of(value)
    }
}

/// The device slots that a JSON value describes: an array of slots.
pub open spec fn slots_of(value: JsonView) -> Option<Seq<Option<DevDataView>>> {
    match value {
        JsonView::Array(items) => if forall|i: int| 0 <= i < items.len() ==> is_slot(#[trigger] items[i]) {
            Some(Seq::new(items.len(), |i: int| slot_of(items[i])))
        } else {
            None
        },
        _ => None,
    }
}

/// The device-list member `devs` of an object.
pub open spec fn slots_member(members: Seq<(Seq<char>, JsonView)>) -> Option<Seq<Option<DevDataView>>> {
    match member(members, "devs"@) {
        Some(value) => slots_of(value),
        None => None,
    }
}

/// The ring metadata that a JSON value describes: an object with the
/// members `devs` (the device slots), `part_shift` and `replica_count`
/// (8 bits each). Members beyond these are ignored.
pub open spec fn metadata_of(value: JsonView) -> Option<RingDataView> {
    match value {
        JsonView::Object(members) => if slots_member(members) is Some
            && unsigned_member(members, "part_shift"@, 0xff) is Some
            && unsigned_member(members, "replica_count"@, 0xff) is Some {
            Some(
                RingDataView {
                    devs: slots_member(members)->0,
                    part_shift: unsigned_member(members, "part_shift"@, 0xff)->0 as u8,
                    replica_count: unsigned_member(members, "replica_count"@, 0xff)->0 as u8,
                },
            )
        } else {
            None
        },
        _ => None,
    }
}

/// Finds the first member of an object that is keyed `name`.
pub fn find_member<'a>(members: &'a Vec<(String, JsonValue)>, name: &str) -> (r: Option<&'a JsonValue>)
    ensures
        match r {
            Some(value) => member(members_view(*members), name@) == Some(value@),
            None => member(members_view(*members), name@) is None,
        },
{
    let ghost all = members_view(*members);
    let key: String = name.to_owned();
    let mut i: usize = 0;
    assert(all.skip(0) == all);
    while i < members.len()
        invariant
            i <= members.len(),
            key@ == name@,
            all == members_view(*members),
            member(all, name@) == member(all.skip(i as int), name@),
        decreases members.len() - i,
    {
        assert(all.skip(i as int)[0] == all[i as int]);
        if members[i].0 == key {
            return Some(&members[i].1);
        }
        assert(all.skip(i as int).drop_first() == all.skip(i as int + 1));
        i = i + 1;
    }
    None
}

/// Reads a whole number within `0..=max`.
pub fn read_unsigned(value: &JsonValue, max: u64) -> (r: Option<u64>)
    ensures
        r == unsigned_of(value@, max),
{
    match value {
        JsonValue::I64(n) => {
            if *n >= 0 && *n as u64 <= max {
                Some(*n as u64)
            } else {
                None
            }
        },
        JsonValue::U64(n) => {
            if *n <= max {
                Some(*n)
            } else {
                None
            }
        },
        _ => None,
    }
}

/// Reads the string member `name` of an object.
pub fn read_text_member(members: &Vec<(String, JsonValue)>, name: &str) -> (r: Option<String>)
    ensures
        match r {
            Some(s) => text_member(members_view(*members), name@) == Some(s@),
            None => text_member(members_view(*members), name@) is None,
        },
{
    match find_member(members, name) {
        Some(JsonValue::String(s)) => Some(s.clone()),
        _ => None,
    }
}

/// Reads the whole-number member `name` of an object, within `0..=max`.
pub fn read_unsigned_member(members: &Vec<(String, JsonValue)>, name: &str, max: u64) -> (r: Option<u64>)
    ensures
        r == unsigned_member(members_view(*members), name@, max),
{
    match find_member(members, name) {
        Some(value) => read_unsigned(value, max),
        None => None,
    }
}

/// Reads the numeric member `name` of an object as a weight.
pub fn read_weight_member(members: &Vec<(String, JsonValue)>, name: &str) -> (r: Option<Weight>)
    ensures
        match r {
            Some(weight) => weight_member(members_view(*members), name@) == Some(weight@),
            None => weight_member(members_view(*members), name@) is None,
        },
{
    match find_member(members, name) {
        Some(JsonValue::I64(n)) => Some(Weight::Signed(*n)),
        Some(JsonValue::U64(n)) => Some(Weight::Unsigned(*n)),
        Some(JsonValue::F64(bits)) => Some(Weight::Real(*bits)),
        _ => None,
    }
}

/// Reads one device out of a JSON value.
pub fn device_from_json(value: &JsonValue) -> (r: Option<DevData>)
    ensures
        match r {
            Some(dev) => device_of(value@) == Some(dev@),
            None => device_of(value@) is None,
        },
{
    proof {
        lemma_json_view(*value);
    }
    let members = match value {
        JsonValue::Object(members) => members,
        _ => {
            return None;
        },
    };
    let device = match read_text_member(members, "device") {
        Some(s) => s,
        None => {
            return None;
        },
    };
    let id: u64 = match read_unsigned_member(members, "id", 0xffff_ffff) {
        Some(n) => n,
        None => {
            return None;
        },
    };
    let ip = match read_text_member(members, "ip") {
        Some(s) => s,
        None => {
            return None;
        },
    };
    let port: u64 = match read_unsigned_member(members, "port", 0xffff) {
        Some(n) => n,
        None => {
            return None;
        },
    };
    let region: u64 = match read_unsigned_member(members, "region", 0xffff) {
        Some(n) => n,
        None => {
            return None;
        },
    };
    let replication_ip = match read_text_member(members, "replication_ip") {
        Some(s) => s,
        None => {
            return None;
        },
    };
    let replication_port: u64 = match read_unsigned_member(members, "replication_port", 0xffff) {
        Some(n) => n,
        None => {
            return None;
        },
    };
    let weight = match read_weight_member(members, "weight") {
        Some(w) => w,
        None => {
            return None;
        },
    };
    let zone: u64 = match read_unsigned_member(members, "zone", 0xffff) {
        Some(n) => n,
        None => {
            return None;
        },
    };
    Some(
        DevData {
            device,
            id: id as u32,
            ip,
            port: port as u16,
            region: region as u16,
            replication_ip,
            replication_port: replication_port as u16,
            weight,
            zone: zone as u16,
        },
    )
}

/// Reads the device slots out of a JSON value.
pub fn slots_from_json(value: &JsonValue) -> (r: Option<Vec<Option<DevData>>>)
    ensures
        match r {
            Some(slots) => slots_of(value@) == Some(Seq::new(slots@.len(), |i: int| slot_view(slots@[i]))),
            None => slots_of(value@) is None,
        },
{
    proof {
        lemma_json_view(*value);
    }
    let items = match value {
        JsonValue::Array(items) => items,
        _ => {
            return None;
        },
    };
    let ghost views = value@->Array_0;
    let mut slots: Vec<Option<DevData>> = Vec::new();
    let mut i: usize = 0;
    while i < items.len()
        invariant
            i <= items.len(),
            slots@.len() == i,
            value@ == JsonView::Array(views),
            views.len() == items@.len(),
            forall|j: int| 0 <= j < items@.len() ==> views[j] == (#[trigger] items@[j])@,
            forall|j: int| 0 <= j < i ==> is_slot(#[trigger] views[j]),
            forall|j: int| 0 <= j < i ==> slot_view(#[trigger] slots@[j]) == slot_of(views[j]),
        decreases items.len() - i,
    {
        assert(views[i as int] == items@[i as int]@);
        match &items[i] {
            JsonValue::Null => {
                slots.push(None);
            },
            other => {
                match device_from_json(other) {
                    Some(dev) => {
                        slots.push(Some(dev));
                    },
                    None => {
                        assert(!is_slot(views[i as int]));
                        return None;
                    },
                }
            },
        }
        i = i + 1;
    }
    assert(Seq::new(slots@.len(), |i: int| slot_view(slots@[i])) =~= Seq::new(
        views.len(),
        |i: int| slot_of(views[i]),
    ));
    Some(slots)
}

/// Reads the ring metadata out of a parsed JSON value.
///
/// `Some` exactly where the value is an object whose `devs` is an array of
/// devices and `null`s and whose `part_shift` and `replica_count` are whole
/// numbers of 8 bits; the result then holds the slots in the array's order.
pub fn metadata_from_json(value: &JsonValue) -> (r: Option<RingData>)
    ensures
        match r {
            Some(meta) => metadata_of(value@) == Some(meta@),
            None => metadata_of(value@) is None,
        },
{
    proof {
        lemma_json_view(*value);
    }
    let members = match value {
        JsonValue::Object(members) => members,
        _ => {
            return None;
        },
    };
    let devs = match find_member(members, "devs") {
        Some(list) => match slots_from_json(list) {
            Some(slots) => slots,
            None => {
                return None;
            },
        },
        None => {
            return None;
        },
    };
    let part_shift: u64 = match read_unsigned_member(members, "part_shift", 0xff) {
        Some(n) => n,
        None => {
            return None;
        },
    };
    let replica_count: u64 = match read_unsigned_member(members, "replica_count", 0xff) {
        Some(n) => n,
        None => {
            return None;
        },
    };
    let meta = RingData { devs, part_shift: part_shift as u8, replica_count: replica_count as u8 };
    assert(meta@.devs =~= slots_member(members_view(*members))->0);
    Some(meta)
}

} // verus!

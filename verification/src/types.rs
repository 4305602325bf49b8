//! Core vocabulary: keys, slots, devices, placement, retention, metadata,
//! capability.
use bytes::Bytes;
use vstd::prelude::*;

use crate::blob;
use crate::text;

verus! {

/// Opaque object key. The index is prefix-ordered, so callers encode namespaces
/// as key prefixes and reclaim them with `remove_prefix`.
#[derive(PartialEq, Eq, PartialOrd, Ord, Hash)]
pub struct Key(pub Bytes);

impl View for Key {
    type V = Seq<u8>;

    open spec fn view(&self) -> Seq<u8> {
        blob::contents(self.0)
    }
}

pub open spec fn starts_with(s: Seq<u8>, prefix: Seq<u8>) -> bool {
    prefix.len() <= s.len() && s.take(prefix.len() as int) == prefix
}

/// Whether two byte strings are the same.
pub fn same_bytes(a: &[u8], b: &[u8]) -> (r: bool)
    ensures
        r == (a@ == b@),
{
    if a.len() != b.len() {
        return false;
    }
    for i in 0..a.len()
        invariant
            a@.len() == b@.len(),
            a@.take(i as int) == b@.take(i as int),
    {
        assert(a@.take(i + 1) =~= a@.take(i as int).push(a@[i as int]));
        assert(b@.take(i + 1) =~= b@.take(i as int).push(b@[i as int]));
        if a[i] != b[i] {
            assert(a@[i as int] != b@[i as int]);
            return false;
        }
    }
    assert(a@.take(a@.len() as int) =~= a@);
    assert(b@.take(b@.len() as int) =~= b@);
    true
}

/// A key as logs show it: quoted where it is printable text, in hexadecimal
/// otherwise.
pub open spec fn key_text(bytes: Seq<u8>) -> Seq<char> {
    if vstd::utf8::valid_utf8(bytes) && text::has_no_control(vstd::utf8::decode_utf8(bytes)) {
        "Key("@ + text::quoted(vstd::utf8::decode_utf8(bytes)) + ")"@
    } else {
        "Key(0x"@ + text::hex_of(bytes) + ")"@
    }
}

impl Clone for Key {
    fn clone(&self) -> (r: Self)
        ensures
            r@ == self@,
    {
        Key(blob::share(&self.0))
    }
}

impl Key {
    pub fn new(bytes: Vec<u8>) -> (r: Self)
        ensures
            r@ == bytes@,
    {
        Key(blob::from_vec(bytes))
    }

    pub fn as_bytes(&self) -> (r: &[u8])
        ensures
            r@ == self@,
    {
        blob::as_slice(&self.0)
    }

    pub fn starts_with(&self, prefix: &[u8]) -> (r: bool)
        ensures
            r == starts_with(self@, prefix@),
    {
        let own = self.as_bytes();
        if prefix.len() > own.len() {
            return false;
        }
        assert(own@.take(prefix@.len() as int) =~= own@.subrange(0, prefix@.len() as int));
        same_bytes(vstd::slice::slice_subrange(own, 0, prefix.len()), prefix)
    }

    /// The key as logs show it: quoted where it is printable text, in
    /// hexadecimal otherwise.
    pub fn debug_text(&self) -> (r: String)
        ensures
            r@ == key_text(self@),
            vstd::utf8::valid_utf8(self@) && text::is_plain(vstd::utf8::decode_utf8(self@)) ==> r@
                == "Key(\""@ + vstd::utf8::decode_utf8(self@) + "\")"@,
    {
        let bytes = self.as_bytes();
        let mut out = String::new();
        let mut printable = false;
        if let Some(s) = text::utf8(bytes) {
            proof {
                vstd::utf8::encode_utf8_decode_utf8(s@);
            }
            if text::no_control(s) {
                printable = true;
                out.append("Key(");
                out.append(text::quote(s).as_str());
                out.append(")");
                proof {
                    reveal_strlit("Key(");
                    reveal_strlit("\"");
                    reveal_strlit(")");
                    reveal_strlit("Key(\"");
                    reveal_strlit("\")");
                    if text::is_plain(s@) {
                        assert(out@ =~= "Key(\""@ + s@ + "\")"@);
                    }
                }
            }
        }
        if !printable {
            out.append("Key(0x");
            out.append(text::hex(bytes).as_str());
            out.append(")");
        }
        assert(out@ =~= key_text(self@));
        out
    }

    /// Whether two keys are the same bytes.
    pub fn same(&self, other: &Key) -> (r: bool)
        ensures
            r == (self@ == other@),
    {
        same_bytes(self.as_bytes(), other.as_bytes())
    }
}

impl From<&str> for Key {
    fn from(s: &str) -> (r: Self)
        ensures
            r@ == vstd::utf8::encode_utf8(s@),
    {
        Key(blob::copy_from_slice(s.as_bytes()))
    }
}

impl vstd::std_specs::convert::FromSpecImpl<&str> for Key {
    open spec fn obeys_from_spec() -> bool {
        false
    }

    open spec fn from_spec(s: &str) -> Self {
        arbitrary()
    }
}

impl From<String> for Key {
    fn from(s: String) -> (r: Self)
        ensures
            r@ == vstd::utf8::encode_utf8(s@),
    {
        Key(blob::copy_from_slice(s.as_str().as_bytes()))
    }
}

impl vstd::std_specs::convert::FromSpecImpl<String> for Key {
    open spec fn obeys_from_spec() -> bool {
        false
    }

    open spec fn from_spec(s: String) -> Self {
        arbitrary()
    }
}

impl From<Vec<u8>> for Key {
    fn from(v: Vec<u8>) -> (r: Self)
        ensures
            r@ == v@,
    {
        Key(blob::from_vec(v))
    }
}

impl vstd::std_specs::convert::FromSpecImpl<Vec<u8>> for Key {
    open spec fn obeys_from_spec() -> bool {
        false
    }

    open spec fn from_spec(v: Vec<u8>) -> Self {
        arbitrary()
    }
}

impl From<&[u8]> for Key {
    fn from(v: &[u8]) -> (r: Self)
        ensures
            r@ == v@,
    {
        Key(blob::copy_from_slice(v))
    }
}

impl vstd::std_specs::convert::FromSpecImpl<&[u8]> for Key {
    open spec fn obeys_from_spec() -> bool {
        false
    }

    open spec fn from_spec(v: &[u8]) -> Self {
        arbitrary()
    }
}

impl From<Bytes> for Key {
    fn from(b: Bytes) -> (r: Self)
        ensures
            r@ == blob::contents(b),
    {
        Key(b)
    }
}

impl vstd::std_specs::convert::FromSpecImpl<Bytes> for Key {
    open spec fn obeys_from_spec() -> bool {
        false
    }

    open spec fn from_spec(b: Bytes) -> Self {
        arbitrary()
    }
}

/// Index of a slot inside an object. Slots are the unit of placement,
/// visibility and eviction.
#[derive(Copy, Clone, Debug, PartialEq, Eq, Hash, PartialOrd, Ord, Structural)]
pub struct SlotIdx(pub u32);

#[derive(Copy, Clone, Debug, PartialEq, Eq, Hash, PartialOrd, Ord, Structural)]
pub struct NodeId(pub u64);

/// Physical position coordinate. The backend supplies the distance function.
#[derive(Copy, Clone, Debug, PartialEq, Eq, Hash, PartialOrd, Ord, Structural)]
pub enum Device {
    Cpu { numa: u16 },
    Gpu { index: u16 },
}

/// `cpu:N` or `gpu:N`.
pub open spec fn device_text(device: Device) -> Seq<char> {
    match device {
        Device::Cpu { numa } => "cpu:"@ + text::decimal(numa as nat),
        Device::Gpu { index } => "gpu:"@ + text::decimal(index as nat),
    }
}

impl Device {
    pub fn cpu(numa: u16) -> (r: Self)
        ensures
            r == (Device::Cpu { numa }),
    {
        Device::Cpu { numa }
    }

    pub fn gpu(index: u16) -> (r: Self)
        ensures
            r == (Device::Gpu { index }),
    {
        Device::Gpu { index }
    }

    pub fn is_gpu(&self) -> (r: bool)
        ensures
            r == (*self is Gpu),
    {
        matches!(self, Device::Gpu { .. })
    }

    /// `cpu:N` or `gpu:N`.
    pub fn to_string(&self) -> (r: String)
        ensures
            r@ == device_text(*self),
    {
        let mut out = String::new();
        match self {
            Device::Cpu { numa } => {
                out.append("cpu:");
                text::push_decimal(&mut out, *numa as u64);
            },
            Device::Gpu { index } => {
                out.append("gpu:");
                text::push_decimal(&mut out, *index as u64);
            },
        }
        assert(out@ =~= device_text(*self));
        out
    }
}

/// Who owns the bytes of a replica.
#[derive(Copy, Clone, Debug, PartialEq, Eq, Hash, PartialOrd, Ord, Structural)]
pub enum Tier {
    /// Store-owned host memory.
    Dram,
    /// Store-owned SSD.
    Ssd,
    /// User memory registered via `publish`; lives as long as the user's region.
    External,
}

/// The order in which equally near replicas are read: store memory first,
/// lent memory next, SSD last.
pub open spec fn rank_of(t: Tier) -> u8 {
    match t {
        Tier::Dram => 0,
        Tier::External => 1,
        Tier::Ssd => 2,
    }
}

pub fn tier_rank(t: Tier) -> (r: u8)
    ensures
        r == rank_of(t),
{
    match t {
        Tier::Dram => 0,
        Tier::External => 1,
        Tier::Ssd => 2,
    }
}

#[derive(Copy, Clone, Debug, PartialEq, Eq, Hash, Structural)]
pub struct Location {
    pub node: NodeId,
    pub device: Device,
    pub tier: Tier,
}

/// Where a slot's bytes should land. Evaluated per slot.
#[derive(Debug, PartialEq, Eq)]
pub enum Placement {
    /// Exactly this device; `NoSpace` otherwise.
    Strict(Device),
    /// This device if possible; otherwise anywhere, flagged `misplaced`.
    Prefer(Device),
    /// One replica on each listed device.
    Each(Vec<Device>),
    /// Wherever there is room.
    Anywhere,
}

pub enum PlacementView {
    Strict(Device),
    Prefer(Device),
    Each(Seq<Device>),
    Anywhere,
}

impl View for Placement {
    type V = PlacementView;

    open spec fn view(&self) -> PlacementView {
        match self {
            Placement::Strict(d) => PlacementView::Strict(*d),
            Placement::Prefer(d) => PlacementView::Prefer(*d),
            Placement::Each(ds) => PlacementView::Each(ds@),
            Placement::Anywhere => PlacementView::Anywhere,
        }
    }
}

/// A copy of a list of devices.
pub fn copy_devices(ds: &Vec<Device>) -> (r: Vec<Device>)
    ensures
        r@ == ds@,
{
    vstd::slice::slice_to_vec(ds.as_slice())
}

pub fn same_devices(a: &Vec<Device>, b: &Vec<Device>) -> (r: bool)
    ensures
        r == (a@ == b@),
{
    if a.len() != b.len() {
        return false;
    }
    for i in 0..a.len()
        invariant
            a@.len() == b@.len(),
            forall|j: int| 0 <= j < i ==> a@[j] == b@[j],
    {
        if a[i] != b[i] {
            return false;
        }
    }
    assert(a@ =~= b@);
    true
}

impl Clone for Placement {
    fn clone(&self) -> (r: Self)
        ensures
            r@ == self@,
    {
        match self {
            Placement::Strict(d) => Placement::Strict(*d),
            Placement::Prefer(d) => Placement::Prefer(*d),
            Placement::Each(ds) => Placement::Each(copy_devices(ds)),
            Placement::Anywhere => Placement::Anywhere,
        }
    }
}

impl Placement {
    pub fn same(&self, other: &Placement) -> (r: bool)
        ensures
            r == (self@ == other@),
    {
        match (self, other) {
            (Placement::Strict(a), Placement::Strict(b)) => *a == *b,
            (Placement::Prefer(a), Placement::Prefer(b)) => *a == *b,
            (Placement::Each(a), Placement::Each(b)) => same_devices(a, b),
            (Placement::Anywhere, Placement::Anywhere) => true,
            _ => false,
        }
    }
}

/// Eviction class of an object.
#[derive(Copy, Clone, Debug, PartialEq, Eq, Hash, Structural)]
pub enum Retention {
    /// May be evicted under pressure.
    Cache,
    /// Only removed by `remove`. A pool full of `Explicit` objects answers `NoSpace`.
    Explicit,
}

#[derive(Debug, PartialEq, Eq)]
pub struct SlotSpec {
    pub len: u64,
    pub placement: Placement,
}

pub struct SlotSpecView {
    pub len: u64,
    pub placement: PlacementView,
}

impl View for SlotSpec {
    type V = SlotSpecView;

    open spec fn view(&self) -> SlotSpecView {
        SlotSpecView { len: self.len, placement: self.placement@ }
    }
}

impl Clone for SlotSpec {
    fn clone(&self) -> (r: Self)
        ensures
            r@ == self@,
    {
        SlotSpec { len: self.len, placement: self.placement.clone() }
    }
}

impl SlotSpec {
    pub fn new(len: u64, placement: Placement) -> (r: Self)
        ensures
            r@ == (SlotSpecView { len, placement: placement@ }),
    {
        Self { len, placement }
    }

    pub fn same(&self, other: &SlotSpec) -> (r: bool)
        ensures
            r == (self@ == other@),
    {
        self.len == other.len && self.placement.same(&other.placement)
    }
}

#[derive(Debug, PartialEq, Eq)]
pub struct ObjectSpec {
    pub retention: Retention,
    pub slots: Vec<SlotSpec>,
}

#[verifier::ext_equal]
pub struct ObjectSpecView {
    pub retention: Retention,
    pub slots: Seq<SlotSpecView>,
}

pub open spec fn slot_specs_view(slots: Seq<SlotSpec>) -> Seq<SlotSpecView> {
    Seq::new(slots.len(), |i: int| slots[i]@)
}

impl View for ObjectSpec {
    type V = ObjectSpecView;

    open spec fn view(&self) -> ObjectSpecView {
        ObjectSpecView { retention: self.retention, slots: slot_specs_view(self.slots@) }
    }
}

impl Clone for ObjectSpec {
    fn clone(&self) -> (r: Self)
        ensures
            r@ == self@,
    {
        let mut slots: Vec<SlotSpec> = Vec::new();
        for i in 0..self.slots.len()
            invariant
                slot_specs_view(slots@) == slot_specs_view(self.slots@).take(i as int),
        {
            let ghost before = slot_specs_view(slots@);
            slots.push(self.slots[i].clone());
            assert(slot_specs_view(slots@) =~= before.push(self.slots@[i as int]@));
            assert(slot_specs_view(slots@) =~= slot_specs_view(self.slots@).take(i + 1));
        }
        assert(slot_specs_view(slots@) =~= slot_specs_view(self.slots@));
        ObjectSpec { retention: self.retention, slots }
    }
}

impl ObjectSpec {
    pub fn same(&self, other: &ObjectSpec) -> (r: bool)
        ensures
            r == (self@ == other@),
    {
        if self.retention != other.retention || self.slots.len() != other.slots.len() {
            assert(self@.retention != other@.retention || self@.slots.len()
                != other@.slots.len());
            return false;
        }
        for i in 0..self.slots.len()
            invariant
                self.slots@.len() == other.slots@.len(),
                forall|j: int| 0 <= j < i ==> self@.slots[j] == other@.slots[j],
        {
            if !self.slots[i].same(&other.slots[i]) {
                assert(self@.slots[i as int] != other@.slots[i as int]);
                return false;
            }
        }
        assert(self@.slots =~= other@.slots);
        true
    }
}

#[derive(Copy, Clone, Debug, PartialEq, Eq, Structural)]
pub struct Replica {
    pub location: Location,
    /// Placed somewhere other than the preferred device.
    pub misplaced: bool,
}

#[derive(Clone, Debug, PartialEq, Eq)]
pub struct SlotInfo {
    pub len: u64,
    /// Empty means the slot has no bytes anywhere (never landed, or evicted).
    pub replicas: Vec<Replica>,
}

pub struct SlotInfoView {
    pub len: u64,
    pub replicas: Seq<Replica>,
}

impl View for SlotInfo {
    type V = SlotInfoView;

    open spec fn view(&self) -> SlotInfoView {
        SlotInfoView { len: self.len, replicas: self.replicas@ }
    }
}

impl SlotInfo {
    pub fn is_resident(&self) -> (r: bool)
        ensures
            r == (self@.replicas.len() > 0),
    {
        !self.replicas.is_empty()
    }
}

#[derive(Clone, Debug, PartialEq, Eq)]
pub struct ObjectInfo {
    pub retention: Retention,
    pub slots: Vec<SlotInfo>,
}

#[verifier::ext_equal]
pub struct ObjectInfoView {
    pub retention: Retention,
    pub slots: Seq<SlotInfoView>,
}

pub open spec fn slot_infos_view(slots: Seq<SlotInfo>) -> Seq<SlotInfoView> {
    Seq::new(slots.len(), |i: int| slots[i]@)
}

impl View for ObjectInfo {
    type V = ObjectInfoView;

    open spec fn view(&self) -> ObjectInfoView {
        ObjectInfoView { retention: self.retention, slots: slot_infos_view(self.slots@) }
    }
}

impl ObjectInfoView {
    /// The indices of the first `n` slots that have a replica, ascending.
    pub open spec fn resident(self, n: nat) -> Seq<SlotIdx>
        decreases n,
    {
        if n == 0 {
            Seq::empty()
        } else {
            let before = self.resident((n - 1) as nat);
            if self.slots[n - 1].replicas.len() > 0 {
                before.push(SlotIdx((n - 1) as u32))
            } else {
                before
            }
        }
    }
}

impl ObjectInfo {
    /// The slots that have a replica, ascending.
    pub fn resident_slots(&self) -> (r: Vec<SlotIdx>)
        ensures
            r@ == self@.resident(self@.slots.len()),
    {
        let mut out: Vec<SlotIdx> = Vec::new();
        for i in 0..self.slots.len()
            invariant
                out@ == self@.resident(i as nat),
        {
            if self.slots[i].is_resident() {
                out.push(SlotIdx(
                    #[verifier::truncate]
                    (i as u32),
                ));
            }
        }
        out
    }

    pub fn is_fully_resident(&self) -> (r: bool)
        ensures
            r == (forall|i: int|
                0 <= i < self@.slots.len() ==> (#[trigger] self@.slots[i]).replicas.len() > 0),
    {
        for i in 0..self.slots.len()
            invariant
                forall|j: int| 0 <= j < i ==> (#[trigger] self@.slots[j]).replicas.len() > 0,
        {
            if !self.slots[i].is_resident() {
                assert(self@.slots[i as int].replicas.len() == 0);
                return false;
            }
        }
        true
    }
}

/// What a backend can do. One flag per optional behavior; no implicit fallback.
#[derive(Copy, Clone, Debug, PartialEq, Eq)]
pub struct Capability {
    /// `register` accepts `Device::Gpu`.
    pub gpu_memory: bool,
    pub publish: bool,
    pub placement_strict: bool,
    pub placement_each: bool,
    pub retention_explicit: bool,
    pub remove_prefix: bool,
    pub max_slot_len: Option<u64>,
    pub max_slots: Option<u32>,
    /// Maximum number of `Iov` segments per src/dst list.
    pub max_iov: Option<u32>,
    pub max_stat_batch: Option<u32>,
}

/// A capability with every flag at `flag` and no limits.
pub open spec fn unlimited(flag: bool) -> Capability {
    Capability {
        gpu_memory: flag,
        publish: flag,
        placement_strict: flag,
        placement_each: flag,
        retention_explicit: flag,
        remove_prefix: flag,
        max_slot_len: None,
        max_slots: None,
        max_iov: None,
        max_stat_batch: None,
    }
}

impl Capability {
    pub fn all() -> (r: Self)
        ensures
            r == unlimited(true),
    {
        Self {
            gpu_memory: true,
            publish: true,
            placement_strict: true,
            placement_each: true,
            retention_explicit: true,
            remove_prefix: true,
            max_slot_len: None,
            max_slots: None,
            max_iov: None,
            max_stat_batch: None,
        }
    }

    pub fn none() -> (r: Self)
        ensures
            r == unlimited(false),
    {
        Self {
            gpu_memory: false,
            publish: false,
            placement_strict: false,
            placement_each: false,
            retention_explicit: false,
            remove_prefix: false,
            max_slot_len: None,
            max_slots: None,
            max_iov: None,
            max_stat_batch: None,
        }
    }
}

impl Default for Capability {
    fn default() -> (r: Self)
        ensures
            r == unlimited(false),
    {
        Self::none()
    }
}

#[derive(Debug)]
pub struct AccessInfo {
    pub name: &'static str,
    pub node: NodeId,
    /// Devices this backend can place bytes on.
    pub devices: Vec<Device>,
    pub capability: Capability,
}

pub struct AccessInfoView {
    pub name: Seq<char>,
    pub node: NodeId,
    pub devices: Seq<Device>,
    pub capability: Capability,
}

impl View for AccessInfo {
    type V = AccessInfoView;

    open spec fn view(&self) -> AccessInfoView {
        AccessInfoView {
            name: self.name@,
            node: self.node,
            devices: self.devices@,
            capability: self.capability,
        }
    }
}

impl Clone for AccessInfo {
    fn clone(&self) -> (r: Self)
        ensures
            r@ == self@,
    {
        AccessInfo {
            name: self.name,
            node: self.node,
            devices: copy_devices(&self.devices),
            capability: self.capability,
        }
    }
}

} // verus!

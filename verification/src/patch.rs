//! A collection of patched fixtures.
//! A patch holds DMX universes and fixtures; each fixture may be placed at an address in one of
//! the universes, where it occupies as many consecutive channels as it has.  Patched fixtures never
//! overlap, and every patched fixture fits inside its universe.
//! DMX addresses count from 1, as on DMX equipment: a fixture at address `a` starts at channel
//! `a - 1` of its universe's buffer, whose channels are indexed from 0.
//! Talking to DMX ports is left to the client too: rendering fills each universe's buffer, which
//! the client then writes out.
use vstd::prelude::*;

verus! {

pub type DmxAddress = u16;
pub type UniverseId = u32;
pub type FixtureId = u32;
pub type DmxChannelCount = u16;
pub type DmxValue = u8;

/// Number of channels in a DMX universe.
pub const UNIVERSE_SIZE: usize = 512;

/// Whether `a` is the address of a channel of a universe: 1 to 512.
pub open spec fn address_in_range(a: DmxAddress) -> bool {
    1 <= a <= UNIVERSE_SIZE
}

/// Return the address if it is valid, or an error.
pub fn valid_address(a: DmxAddress) -> (r: Result<DmxAddress, PatchError>)
    ensures
        address_in_range(a) ==> r == Ok::<DmxAddress, PatchError>(a),
        !address_in_range(a) ==> r == Err::<DmxAddress, PatchError>(PatchError::InvalidDmxAddress(a)),
{
    if 1 <= a && (a as usize) <= UNIVERSE_SIZE {
        Ok(a)
    } else {
        Err(PatchError::InvalidDmxAddress(a))
    }
}

/// A universe's worth of channels, all at zero.
pub fn empty_buffer() -> (r: [DmxValue; 512])
    ensures
        forall|c: int| 0 <= c < UNIVERSE_SIZE ==> r@[c] == 0,
{
    [0u8; 512]
}

/// Errors from the fixture patch.
#[derive(Debug, PartialEq, Eq)]
pub enum PatchError {
    InvalidDmxAddress(DmxAddress),
    InvalidFixtureId(FixtureId),
    InvalidUniverseId(UniverseId),
    /// Patching a fixture at an address would overlap these already patched fixtures.
    AddressConflict(FixtureId, UniverseId, DmxAddress, Vec<FixtureId>),
    FixtureTooLongForAddress(DmxAddress, DmxChannelCount),
    NonEmptyUniverse(UniverseId),
}

/// What a `PatchError` holds, with the conflicting ids as a sequence.
pub enum PatchErrorView {
    InvalidDmxAddress(DmxAddress),
    InvalidFixtureId(FixtureId),
    InvalidUniverseId(UniverseId),
    AddressConflict(FixtureId, UniverseId, DmxAddress, Seq<FixtureId>),
    FixtureTooLongForAddress(DmxAddress, DmxChannelCount),
    NonEmptyUniverse(UniverseId),
}

impl View for PatchError {
    type V = PatchErrorView;

    open spec fn view(&self) -> PatchErrorView {
        match self {
            PatchError::InvalidDmxAddress(a) => PatchErrorView::InvalidDmxAddress(*a),
            PatchError::InvalidFixtureId(f) => PatchErrorView::InvalidFixtureId(*f),
            PatchError::InvalidUniverseId(u) => PatchErrorView::InvalidUniverseId(*u),
            PatchError::AddressConflict(f, u, a, ids) => PatchErrorView::AddressConflict(
                *f,
                *u,
                *a,
                ids@,
            ),
            PatchError::FixtureTooLongForAddress(a, n) => PatchErrorView::FixtureTooLongForAddress(
                *a,
                *n,
            ),
            PatchError::NonEmptyUniverse(u) => PatchErrorView::NonEmptyUniverse(*u),
        }
    }
}

/// Errors from a single fixture.
#[derive(Debug, PartialEq, Eq, Structural, Clone, Copy)]
pub enum FixtureError {
    ControlOutOfRange(usize),
}

// -----------------------
// DMX universe
// -----------------------

/// A DMX universe: a name and the buffer of channel values that is written to its port.
#[derive(Debug)]
pub struct Universe {
    name: String,
    buffer: [DmxValue; 512],
}

pub struct UniverseView {
    pub name: Seq<char>,
    pub buffer: Seq<DmxValue>,
}

impl View for Universe {
    type V = UniverseView;

    closed spec fn view(&self) -> UniverseView {
        UniverseView { name: self.name@, buffer: self.buffer@ }
    }
}

impl Universe {
    /// A universe with this name and every channel at zero.
    pub fn new(name: String) -> (r: Self)
        ensures
            r@.name == name@,
            r@.buffer.len() == UNIVERSE_SIZE,
            forall|c: int| 0 <= c < UNIVERSE_SIZE ==> r@.buffer[c] == 0,
    {
        Universe { name, buffer: empty_buffer() }
    }

    /// The name of this universe.
    pub fn name(&self) -> (r: &str)
        ensures
            r@ == self@.name,
    {
        self.name.as_str()
    }

    /// The channel values last rendered into this universe.
    pub fn buffer(&self) -> (r: &[DmxValue; 512])
        ensures
            r@ == self@.buffer,
    {
        &self.buffer
    }
}

// -----------------------
// DMX fixture
// -----------------------

/// A DMX fixture: its kind, how many channels it occupies, how many controls it offers, and the
/// DMX values that its channels currently take, as computed from its controls.
#[derive(Debug)]
pub struct DmxFixture {
    kind: String,
    channel_count: DmxChannelCount,
    control_count: usize,
    levels: Vec<DmxValue>,
}

pub struct FixtureView {
    pub kind: Seq<char>,
    pub channel_count: DmxChannelCount,
    pub control_count: usize,
    pub levels: Seq<DmxValue>,
}

impl View for DmxFixture {
    type V = FixtureView;

    closed spec fn view(&self) -> FixtureView {
        FixtureView {
            kind: self.kind@,
            channel_count: self.channel_count,
            control_count: self.control_count,
            levels: self.levels@,
        }
    }
}

impl FixtureView {
    /// There is one level per channel.
    pub open spec fn wf(self) -> bool {
        self.levels.len() == self.channel_count
    }
}

impl DmxFixture {
    /// A fixture of this kind, with every channel at zero.
    pub fn new(kind: String, channel_count: DmxChannelCount, control_count: usize) -> (r: Self)
        ensures
            r@.wf(),
            r@.kind == kind@,
            r@.channel_count == channel_count,
            r@.control_count == control_count,
            forall|k: int| 0 <= k < channel_count ==> r@.levels[k] == 0,
    {
        let levels = vec![0u8; channel_count as usize];
        DmxFixture { kind, channel_count, control_count, levels }
    }

    /// The name of this kind of fixture.
    pub fn kind(&self) -> (r: &str)
        ensures
            r@ == self@.kind,
    {
        self.kind.as_str()
    }

    /// The number of DMX channels that this fixture requires.
    pub fn channel_count(&self) -> (r: DmxChannelCount)
        ensures
            r == self@.channel_count,
    {
        self.channel_count
    }

    /// The DMX values of this fixture's channels.
    pub fn levels(&self) -> (r: &[DmxValue])
        ensures
            r@ == self@.levels,
    {
        self.levels.as_slice()
    }

    /// Set a control: `levels` are the DMX values that the fixture's channels take once the
    /// control has its new value.  Fail if the fixture has no such control.
    pub fn set_control(&mut self, control_id: usize, levels: Vec<DmxValue>) -> (r: Result<
        (),
        FixtureError,
    >)
        requires
            levels@.len() == old(self)@.channel_count,
        ensures
            control_id >= old(self)@.control_count ==> r == Err::<(), FixtureError>(
                FixtureError::ControlOutOfRange(control_id),
            ) && final(self)@ == old(self)@,
            control_id < old(self)@.control_count ==> r is Ok && final(self)@ == (FixtureView {
                levels: levels@,
                ..old(self)@
            }),
    {
        if control_id >= self.control_count {
            Err(FixtureError::ControlOutOfRange(control_id))
        } else {
            self.levels = levels;
            Ok(())
        }
    }

    /// Write this fixture's levels into a universe buffer, starting at channel `start`.
    pub fn render(&self, buffer: &mut [DmxValue; 512], start: usize)
        requires
            self@.wf(),
            start + self@.channel_count <= UNIVERSE_SIZE,
        ensures
            final(buffer)@.len() == UNIVERSE_SIZE,
            forall|c: int|
                0 <= c < UNIVERSE_SIZE ==> #[trigger] final(buffer)@[c] == if start <= c < start
                    + self@.channel_count {
                    self@.levels[c - start]
                } else {
                    old(buffer)@[c]
                },
    {
        let n = self.channel_count as usize;
        let mut k: usize = 0;
        while k < n
            invariant
                self@.wf(),
                n == self@.channel_count,
                start + n <= UNIVERSE_SIZE,
                k <= n,
                buffer@.len() == UNIVERSE_SIZE,
                forall|c: int|
                    0 <= c < UNIVERSE_SIZE ==> #[trigger] buffer@[c] == if start <= c < start + k {
                        self@.levels[c - start]
                    } else {
                        old(buffer)@[c]
                    },
            decreases n - k,
        {
            buffer[start + k] = self.levels[k];
            k = k + 1;
        }
    }
}

// -----------------------
// Fixture profiles
// -----------------------

/// All the data needed to create a fixture of a particular kind.
#[derive(Debug)]
pub struct Profile {
    pub name: &'static str,
    pub description: &'static str,
    pub channel_count: DmxChannelCount,
    pub control_count: usize,
}

impl Profile {
    pub fn name(&self) -> (r: &'static str)
        ensures
            r == self.name,
    {
        self.name
    }

    pub fn description(&self) -> (r: &'static str)
        ensures
            r == self.description,
    {
        self.description
    }

    pub fn channel_count(&self) -> (r: DmxChannelCount)
        ensures
            r == self.channel_count,
    {
        self.channel_count
    }

    /// A new fixture of this profile's kind, with every channel at zero.
    pub fn create_fixture(&self) -> (r: DmxFixture)
        ensures
            r@.wf(),
            r@.kind == self.name@,
            r@.channel_count == self.channel_count,
            r@.control_count == self.control_count,
            forall|k: int| 0 <= k < self.channel_count ==> r@.levels[k] == 0,
            r@.levels == Seq::new(self.channel_count as nat, |k: int| 0u8),
    {
        let r = DmxFixture::new(String::from_str(self.name), self.channel_count, self.control_count);
        assert(r@.levels =~= Seq::new(self.channel_count as nat, |k: int| 0u8));
        r
    }
}

/// Basic 1-channel dimmer, controlled by a single level.
pub open spec fn dimmer_spec() -> Profile {
    Profile {
        name: "dimmer",
        description: "1-channel linear dimmer.",
        channel_count: 1,
        control_count: 1,
    }
}

/// Apollo Roto-Q DMX, rotating mode only, controlled by a single rotation.
pub open spec fn apollo_roto_q_spec() -> Profile {
    Profile {
        name: "apollo:Roto-Q DMX",
        description: "Not yet implemented. Apollo Roto-Q DMX, rotating mode only.",
        channel_count: 2,
        control_count: 1,
    }
}

/// Apollo Smart Move DMX, rotating mode only, controlled by a single rotation.
pub open spec fn apollo_smart_move_spec() -> Profile {
    Profile {
        name: "apollo:Smart Move DMX",
        description: "Not yet implemented. Apollo Smart Move DMX, rotating mode only.",
        channel_count: 3,
        control_count: 1,
    }
}

/// Clay Paky Astroraggi Power, without dome indexing: rotation on the first channel, shutter and
/// strobe on the second, with a nonzero strobe taking priority over the shutter.  Controlled by
/// shutter, strobe and rotation.
pub open spec fn clay_paky_astroraggi_power_spec() -> Profile {
    Profile {
        name: "clay paky:Astroraggi Power",
        description: "The ORIGINAL moonflower.",
        channel_count: 2,
        control_count: 3,
    }
}

/// Clay Paky Atlas: one channel for shutter and strobe, with a nonzero strobe taking priority
/// over aperture fanning.  Controlled by apertures and strobe.
pub open spec fn clay_paky_atlas_spec() -> Profile {
    Profile {
        name: "clay paky:Atlas",
        description: "The megaest fan light of them all.",
        channel_count: 1,
        control_count: 2,
    }
}

/// Every available fixture profile.
pub open spec fn profile_table() -> Seq<Profile> {
    seq![
        dimmer_spec(),
        apollo_smart_move_spec(),
        apollo_roto_q_spec(),
        clay_paky_astroraggi_power_spec(),
        clay_paky_atlas_spec(),
    ]
}

/// Basic 1-channel dimmer, controlled by a single level.
pub fn dimmer_profile() -> (r: Profile)
    ensures
        r == dimmer_spec(),
{
    Profile {
        name: "dimmer",
        description: "1-channel linear dimmer.",
        channel_count: 1,
        control_count: 1,
    }
}

/// Apollo Roto-Q DMX, rotating mode only, controlled by a single rotation.
pub fn apollo_roto_q_profile() -> (r: Profile)
    ensures
        r == apollo_roto_q_spec(),
{
    Profile {
        name: "apollo:Roto-Q DMX",
        description: "Not yet implemented. Apollo Roto-Q DMX, rotating mode only.",
        channel_count: 2,
        control_count: 1,
    }
}

/// Apollo Smart Move DMX, rotating mode only, controlled by a single rotation.
pub fn apollo_smart_move_profile() -> (r: Profile)
    ensures
        r == apollo_smart_move_spec(),
{
    Profile {
        name: "apollo:Smart Move DMX",
        description: "Not yet implemented. Apollo Smart Move DMX, rotating mode only.",
        channel_count: 3,
        control_count: 1,
    }
}

/// Clay Paky Astroraggi Power, controlled by shutter, strobe and rotation.
pub fn clay_paky_astroraggi_power_profile() -> (r: Profile)
    ensures
        r == clay_paky_astroraggi_power_spec(),
{
    Profile {
        name: "clay paky:Astroraggi Power",
        description: "The ORIGINAL moonflower.",
        channel_count: 2,
        control_count: 3,
    }
}

/// Clay Paky Atlas, controlled by apertures and strobe.
pub fn clay_paky_atlas_profile() -> (r: Profile)
    ensures
        r == clay_paky_atlas_spec(),
{
    Profile {
        name: "clay paky:Atlas",
        description: "The megaest fan light of them all.",
        channel_count: 1,
        control_count: 2,
    }
}

/// Every available fixture profile.
pub fn profiles() -> (r: Vec<Profile>)
    ensures
        r@ == profile_table(),
{
    let mut v = Vec::new();
    v.push(dimmer_profile());
    v.push(apollo_smart_move_profile());
    v.push(apollo_roto_q_profile());
    v.push(clay_paky_astroraggi_power_profile());
    v.push(clay_paky_atlas_profile());
    assert(v@ =~= profile_table());
    v
}

/// The first profile in the table with this name.
pub open spec fn profile_in(table: Seq<Profile>, kind: Seq<char>) -> Option<Profile>
    decreases table.len(),
{
    if table.len() == 0 {
        None
    } else if table[0].name@ == kind {
        Some(table[0])
    } else {
        profile_in(table.subrange(1, table.len() as int), kind)
    }
}

/// The available profile with this name, if any.
pub fn profile_named(kind: &str) -> (r: Option<Profile>)
    ensures
        r == profile_in(profile_table(), kind@),
{
    let mut table = profiles();
    let wanted = String::from_str(kind);
    let mut k: usize = 0;
    assert(table@.subrange(0, table@.len() as int) =~= table@);
    while k < table.len()
        invariant
            k <= table@.len(),
            table@ == profile_table(),
            wanted@ == kind@,
            profile_in(profile_table(), kind@) == profile_in(table@.subrange(k as int, table@.len() as int), kind@),
        decreases table@.len() - k,
    {
        let ghost rest = table@.subrange(k as int, table@.len() as int);
        assert(rest.subrange(1, rest.len() as int) =~= table@.subrange(k + 1, table@.len() as int));
        let name = String::from_str(table[k].name);
        if name == wanted {
            let p = table.swap_remove(k);
            return Some(p);
        }
        k = k + 1;
    }
    None
}

// -------------------------
// Single patched item
// -------------------------

/// A fixture in the patch: a unique id, a name, where it is patched if anywhere, and whether it
/// is rendered.
#[derive(Debug)]
pub struct PatchItem {
    id: FixtureId,
    pub name: String,
    address: Option<(UniverseId, DmxAddress)>,
    active: bool,
    fixture: DmxFixture,
}

pub struct ItemView {
    pub id: FixtureId,
    pub name: Seq<char>,
    pub address: Option<(UniverseId, DmxAddress)>,
    pub active: bool,
    pub fixture: FixtureView,
}

impl View for PatchItem {
    type V = ItemView;

    closed spec fn view(&self) -> ItemView {
        ItemView {
            id: self.id,
            name: self.name@,
            address: self.address,
            active: self.active,
            fixture: self.fixture@,
        }
    }
}

impl PatchItem {
    /// Unique fixture id.
    pub fn id(&self) -> (r: FixtureId)
        ensures
            r == self@.id,
    {
        self.id
    }

    /// The name given to this fixture.
    pub fn name(&self) -> (r: &str)
        ensures
            r@ == self@.name,
    {
        self.name.as_str()
    }

    /// Give this fixture a new name.
    pub fn set_name(&mut self, name: String)
        ensures
            final(self)@ == (ItemView { name: name@, ..old(self)@ }),
    {
        self.name = name;
    }

    /// The name of this kind of fixture.
    pub fn kind(&self) -> (r: &str)
        ensures
            r@ == self@.fixture.kind,
    {
        self.fixture.kind()
    }

    /// Where this fixture is patched, if anywhere.
    pub fn address(&self) -> (r: Option<(UniverseId, DmxAddress)>)
        ensures
            r == self@.address,
    {
        self.address
    }

    /// Whether this fixture is rendered.
    pub fn active(&self) -> (r: bool)
        ensures
            r == self@.active,
    {
        self.active
    }

    /// The universe this fixture is patched in, if any.
    pub fn universe(&self) -> (r: Option<UniverseId>)
        ensures
            r == (match self@.address {
                Some((u, _)) => Some(u),
                None => None,
            }),
    {
        match self.address {
            Some((u, _)) => Some(u),
            None => None,
        }
    }

    /// The number of DMX channels this fixture occupies.
    pub fn channel_count(&self) -> (r: DmxChannelCount)
        ensures
            r == self@.fixture.channel_count,
    {
        self.fixture.channel_count()
    }

    /// The fixture itself.
    pub fn fixture(&self) -> (r: &DmxFixture)
        ensures
            r@ == self@.fixture,
    {
        &self.fixture
    }

    /// Set a control of this fixture; see `DmxFixture::set_control`.
    pub fn set_control(&mut self, control_id: usize, levels: Vec<DmxValue>) -> (r: Result<
        (),
        FixtureError,
    >)
        requires
            levels@.len() == old(self)@.fixture.channel_count,
        ensures
            control_id >= old(self)@.fixture.control_count ==> r == Err::<(), FixtureError>(
                FixtureError::ControlOutOfRange(control_id),
            ) && final(self)@ == old(self)@,
            control_id < old(self)@.fixture.control_count ==> r is Ok && final(self)@ == (ItemView {
                fixture: FixtureView { levels: levels@, ..old(self)@.fixture },
                ..old(self)@
            }),
    {
        self.fixture.set_control(control_id, levels)
    }
}

// -------------------------
// Specification of the whole patch
// -------------------------

pub struct PatchView {
    pub universes: Seq<Option<UniverseView>>,
    pub items: Seq<ItemView>,
    pub next_id: FixtureId,
}

/// Whether this item occupies channel `c` of universe `u`.
pub open spec fn covers(it: ItemView, u: UniverseId, c: int) -> bool {
    match it.address {
        Some((uu, a)) => uu == u && a - 1 <= c < a - 1 + it.fixture.channel_count,
        None => false,
    }
}

/// Two items do not share any channel.
pub open spec fn disjoint(x: ItemView, y: ItemView) -> bool {
    match (x.address, y.address) {
        (Some((ux, ax)), Some((uy, ay))) => ux != uy || x.fixture.channel_count == 0
            || y.fixture.channel_count == 0 || ax + x.fixture.channel_count <= ay || ay
            + y.fixture.channel_count <= ax,
        _ => true,
    }
}

/// Whether universe `u` exists.
pub open spec fn universe_exists(v: PatchView, u: UniverseId) -> bool {
    u < v.universes.len() && v.universes[u as int] is Some
}

/// The patch invariant: ids are unique and below the next id, every fixture has one level per
/// channel, every patched fixture lies inside an existing universe, no two patched fixtures
/// share a channel, and every universe id fits its type.
pub open spec fn patch_wf(v: PatchView) -> bool {
    &&& forall|i: int| 0 <= i < v.items.len() ==> #[trigger] v.items[i].id < v.next_id
    &&& forall|i: int, j: int|
        0 <= i < v.items.len() && 0 <= j < v.items.len() && i != j ==> #[trigger] v.items[i].id
            != #[trigger] v.items[j].id
    &&& forall|i: int| 0 <= i < v.items.len() ==> (#[trigger] v.items[i]).fixture.wf()
    &&& forall|i: int|
        0 <= i < v.items.len() ==> match (#[trigger] v.items[i]).address {
            Some((u, a)) => universe_exists(v, u) && 1 <= a && a - 1 + v.items[i].fixture.channel_count
                <= UNIVERSE_SIZE,
            None => true,
        }
    &&& forall|i: int, j: int|
        0 <= i < v.items.len() && 0 <= j < v.items.len() && i != j ==> disjoint(
            #[trigger] v.items[i],
            #[trigger] v.items[j],
        )
    &&& v.universes.len() <= u32::MAX
    &&& forall|u: int| 0 <= u < v.universes.len() ==> (#[trigger] v.universes[u] matches Some(
        uv,
    ) ==> uv.buffer.len() == UNIVERSE_SIZE)
}

/// The first position of an item with this id, if any.
pub open spec fn is_first_with_id(items: Seq<ItemView>, id: FixtureId, i: int) -> bool {
    &&& 0 <= i < items.len()
    &&& items[i].id == id
    &&& forall|j: int| 0 <= j < i ==> #[trigger] items[j].id != id
}

/// Whether some item has this id.
pub open spec fn has_id(items: Seq<ItemView>, id: FixtureId) -> bool {
    exists|i: int| 0 <= i < items.len() && #[trigger] items[i].id == id
}

/// The id of the last item, in patch order, that occupies channel `c` of universe `u`.
pub open spec fn summary_at(items: Seq<ItemView>, u: UniverseId, c: int) -> Option<FixtureId>
    decreases items.len(),
{
    if items.len() == 0 {
        None
    } else if covers(items.last(), u, c) {
        Some(items.last().id)
    } else {
        summary_at(items.drop_last(), u, c)
    }
}

/// The ids among these channel owners, in order, with runs of one id collapsed to one.
pub open spec fn distinct_runs(s: Seq<Option<FixtureId>>) -> Seq<FixtureId>
    decreases s.len(),
{
    if s.len() == 0 {
        Seq::empty()
    } else {
        let d = distinct_runs(s.drop_last());
        match s.last() {
            None => d,
            Some(x) => if d.len() > 0 && d.last() == x {
                d
            } else {
                d.push(x)
            },
        }
    }
}

/// The owners of channels `a .. a + n` of universe `u`.
pub open spec fn owners(items: Seq<ItemView>, u: UniverseId, a: int, n: int) -> Seq<
    Option<FixtureId>,
> {
    Seq::new(n as nat, |k: int| summary_at(items, u, a + k))
}

/// The value that rendering gives channel `c` of universe `u`: the level of the last active
/// fixture, in patch order, that occupies the channel, or zero.
pub open spec fn rendered_at(items: Seq<ItemView>, u: UniverseId, c: int) -> DmxValue
    decreases items.len(),
{
    if items.len() == 0 {
        0
    } else if items.last().active && covers(items.last(), u, c) {
        match items.last().address {
            Some((_, a)) => items.last().fixture.levels[c - (a - 1)],
            None => 0,
        }
    } else {
        rendered_at(items.drop_last(), u, c)
    }
}

/// The universes' ids and names, in order of id.
pub open spec fn described(us: Seq<Option<UniverseView>>) -> Seq<(UniverseId, Seq<char>)>
    decreases us.len(),
{
    if us.len() == 0 {
        Seq::empty()
    } else {
        let d = described(us.drop_last());
        match us.last() {
            Some(u) => d.push((((us.len() - 1) as UniverseId), u.name)),
            None => d,
        }
    }
}

/// The position of the first free universe slot, or the number of slots if none is free.
pub open spec fn first_free(us: Seq<Option<UniverseView>>) -> int
    decreases us.len(),
{
    if us.len() == 0 {
        0
    } else if first_free(us.drop_last()) < us.len() - 1 {
        first_free(us.drop_last())
    } else if us.last() is None {
        us.len() - 1
    } else {
        us.len() as int
    }
}

pub proof fn lemma_first_free(us: Seq<Option<UniverseView>>, i: int)
    requires
        0 <= i <= us.len(),
        forall|j: int| 0 <= j < i ==> #[trigger] us[j] is Some,
        i < us.len() ==> us[i] is None,
    ensures
        first_free(us) == i,
    decreases us.len(),
{
    if us.len() > 0 {
        if i < us.len() {
            if i < us.len() - 1 {
                lemma_first_free(us.drop_last(), i);
            } else {
                lemma_first_free(us.drop_last(), i);
            }
        } else {
            lemma_first_free(us.drop_last(), i - 1);
        }
    }
}

/// A new fixture of this profile's kind, with every channel at zero.
pub open spec fn fresh_fixture(p: Profile) -> FixtureView {
    FixtureView {
        kind: p.name@,
        channel_count: p.channel_count,
        control_count: p.control_count,
        levels: Seq::new(p.channel_count as nat, |k: int| 0u8),
    }
}

/// The patch after adding a fixture of this profile, named `name` or after the profile.
pub open spec fn added(v: PatchView, p: Profile, name: Option<String>) -> PatchView {
    let item = ItemView {
        id: v.next_id,
        name: match name {
            Some(n) => n@,
            None => p.name@,
        },
        address: None,
        active: true,
        fixture: fresh_fixture(p),
    };
    PatchView { items: v.items.push(item), next_id: (v.next_id + 1) as FixtureId, ..v }
}

/// Whether this item is patched in universe `u`.
pub open spec fn in_universe(it: ItemView, u: UniverseId) -> bool {
    match it.address {
        Some((uu, _)) => uu == u,
        None => false,
    }
}

/// Whether any item is patched in universe `u`.
pub open spec fn universe_in_use(items: Seq<ItemView>, u: UniverseId) -> bool {
    exists|i: int| 0 <= i < items.len() && in_universe(#[trigger] items[i], u)
}

/// The items, with those patched in universe `u` unpatched.
pub open spec fn unpatched_from(items: Seq<ItemView>, u: UniverseId) -> Seq<ItemView> {
    items.map_values(|it: ItemView| if in_universe(it, u) { ItemView { address: None, ..it } } else { it })
}

/// The patch with item `i` patched at address `a` of universe `u`.
pub open spec fn with_address(v: PatchView, i: int, u: UniverseId, a: DmxAddress) -> PatchView {
    PatchView { items: v.items.update(i, ItemView { address: Some((u, a)), ..v.items[i] }), ..v }
}

/// The position of the first item with this id, when there is one.
pub open spec fn first_with_id(items: Seq<ItemView>, id: FixtureId) -> int {
    choose|i: int| is_first_with_id(items, id, i)
}

/// What patching fixture `id` at address `a` of universe `u` gives: the checks are made in this
/// order, and the patch changes only on success.
pub open spec fn repatch_result(v: PatchView, id: FixtureId, u: UniverseId, a: DmxAddress) -> Result<
    (),
    PatchErrorView,
> {
    if !address_in_range(a) {
        Err(PatchErrorView::InvalidDmxAddress(a))
    } else if !universe_exists(v, u) {
        Err(PatchErrorView::InvalidUniverseId(u))
    } else if !has_id(v.items, id) {
        Err(PatchErrorView::InvalidFixtureId(id))
    } else {
        let n = v.items[first_with_id(v.items, id)].fixture.channel_count;
        if a - 1 + n > UNIVERSE_SIZE {
            Err(PatchErrorView::FixtureTooLongForAddress(a, n))
        } else {
            let conflicts = distinct_runs(owners(v.items, u, a - 1, n as int));
            if conflicts.len() == 0 {
                Ok(())
            } else {
                Err(PatchErrorView::AddressConflict(id, u, a, conflicts))
            }
        }
    }
}

pub proof fn lemma_first_unique(items: Seq<ItemView>, id: FixtureId, i: int)
    requires
        is_first_with_id(items, id, i),
    ensures
        first_with_id(items, id) == i,
        has_id(items, id),
{
    let j = first_with_id(items, id);
    assert(is_first_with_id(items, id, j));
    if j < i {
        assert(items[j].id != id);
    }
    if i < j {
        assert(items[i].id != id);
    }
}

/// A channel that nobody owns is not occupied by any item.
pub proof fn lemma_summary_none(items: Seq<ItemView>, u: UniverseId, c: int)
    requires
        summary_at(items, u, c) is None,
    ensures
        forall|j: int| 0 <= j < items.len() ==> !covers(#[trigger] items[j], u, c),
    decreases items.len(),
{
    if items.len() > 0 {
        lemma_summary_none(items.drop_last(), u, c);
        assert forall|j: int| 0 <= j < items.len() implies !covers(#[trigger] items[j], u, c) by {
            if j < items.len() - 1 {
                assert(items[j] == items.drop_last()[j]);
            }
        }
    }
}

/// A channel owned by `x` is occupied by an item with id `x`.
pub proof fn lemma_summary_some(items: Seq<ItemView>, u: UniverseId, c: int)
    requires
        summary_at(items, u, c) is Some,
    ensures
        exists|j: int|
            0 <= j < items.len() && covers(#[trigger] items[j], u, c) && items[j].id == summary_at(
                items,
                u,
                c,
            )->0,
    decreases items.len(),
{
    if !covers(items.last(), u, c) {
        lemma_summary_some(items.drop_last(), u, c);
        let j = choose|j: int|
            0 <= j < items.drop_last().len() && covers(#[trigger] items.drop_last()[j], u, c)
                && items.drop_last()[j].id == summary_at(items.drop_last(), u, c)->0;
        assert(items[j] == items.drop_last()[j]);
    } else {
        assert(covers(items[items.len() - 1], u, c));
    }
}

/// An item that occupies no channel of `a - 1 .. a - 1 + n` in universe `u` does not overlap a
/// fixture of `n` channels patched at address `a` there.
pub proof fn lemma_disjoint_free(it: ItemView, other: ItemView, u: UniverseId, a: DmxAddress)
    requires
        other.address == Some((u, a)),
        forall|x: int| a - 1 <= x < a - 1 + other.fixture.channel_count ==> !#[trigger] covers(it, u, x),
    ensures
        disjoint(other, it),
        disjoint(it, other),
{
    let n = other.fixture.channel_count;
    match it.address {
        Some((uu, b)) => {
            if uu == u && n > 0 && it.fixture.channel_count > 0 {
                let x = if a <= b { b - 1 } else { a - 1 };
                if x < a - 1 + n && x < b - 1 + it.fixture.channel_count {
                    assert(covers(it, u, x));
                }
            }
        },
        None => {},
    }
}

/// When no run of owners is found, no channel has an owner.
pub proof fn lemma_distinct_runs_empty(s: Seq<Option<FixtureId>>)
    requires
        distinct_runs(s).len() == 0,
    ensures
        forall|k: int| 0 <= k < s.len() ==> #[trigger] s[k] is None,
    decreases s.len(),
{
    if s.len() > 0 {
        lemma_distinct_runs_empty(s.drop_last());
        assert forall|k: int| 0 <= k < s.len() implies #[trigger] s[k] is None by {
            if k < s.len() - 1 {
                assert(s[k] == s.drop_last()[k]);
            }
        }
    }
}

/// A universe slot before and after rendering: both empty, or both holding a universe of the
/// same name.
pub open spec fn same_shape(n: Option<UniverseView>, o: Option<UniverseView>) -> bool {
    match (n, o) {
        (Some(nu), Some(ou)) => nu.name == ou.name && nu.buffer.len() == UNIVERSE_SIZE,
        (None, None) => true,
        _ => false,
    }
}

/// A universe slot after rendering: shaped as before, with the given channel values.
pub open spec fn rendered_universe(
    n: Option<UniverseView>,
    o: Option<UniverseView>,
    values: spec_fn(int) -> DmxValue,
) -> bool {
    &&& same_shape(n, o)
    &&& n matches Some(nu) ==> forall|c: int| 0 <= c < UNIVERSE_SIZE ==> #[trigger] nu.buffer[c] == values(c)
}


// -------------------------
// Laws of the patch
// -------------------------

/// No two of these items share a channel.
pub open spec fn pairwise_disjoint(items: Seq<ItemView>) -> bool {
    forall|i: int, j: int|
        0 <= i < items.len() && 0 <= j < items.len() && i != j ==> disjoint(
            #[trigger] items[i],
            #[trigger] items[j],
        )
}

/// Two items that occupy the same channel overlap.
pub proof fn lemma_covers_overlap(x: ItemView, y: ItemView, u: UniverseId, c: int)
    requires
        covers(x, u, c),
        covers(y, u, c),
    ensures
        !disjoint(x, y),
{
}

/// When no two items overlap, a channel's owner is the item that occupies it.
pub proof fn lemma_summary_owner(items: Seq<ItemView>, u: UniverseId, c: int, i: int)
    requires
        pairwise_disjoint(items),
        0 <= i < items.len(),
        covers(items[i], u, c),
    ensures
        summary_at(items, u, c) == Some(items[i].id),
    decreases items.len(),
{
    let n = items.len() - 1;
    if i < n {
        if covers(items.last(), u, c) {
            lemma_covers_overlap(items[i], items[n], u, c);
            assert(disjoint(items[i], items[n]));
        }
        let d = items.drop_last();
        assert(d[i] == items[i]);
        assert(pairwise_disjoint(d)) by {
            assert forall|p: int, q: int| 0 <= p < d.len() && 0 <= q < d.len() && p != q implies disjoint(
                #[trigger] d[p],
                #[trigger] d[q],
            ) by {
                assert(d[p] == items[p] && d[q] == items[q]);
            }
        }
        lemma_summary_owner(d, u, c, i);
    }
}

/// When no two items overlap, rendering gives a channel the level of the active item that
/// occupies it.
pub proof fn lemma_rendered_owner(items: Seq<ItemView>, u: UniverseId, c: int, i: int)
    requires
        pairwise_disjoint(items),
        0 <= i < items.len(),
        items[i].active,
        covers(items[i], u, c),
    ensures
        rendered_at(items, u, c) == match items[i].address {
            Some((_, a)) => items[i].fixture.levels[c - (a - 1)],
            None => 0,
        },
    decreases items.len(),
{
    let n = items.len() - 1;
    if i < n {
        if covers(items.last(), u, c) {
            lemma_covers_overlap(items[i], items[n], u, c);
            assert(disjoint(items[i], items[n]));
        }
        let d = items.drop_last();
        assert(d[i] == items[i]);
        assert(pairwise_disjoint(d)) by {
            assert forall|p: int, q: int| 0 <= p < d.len() && 0 <= q < d.len() && p != q implies disjoint(
                #[trigger] d[p],
                #[trigger] d[q],
            ) by {
                assert(d[p] == items[p] && d[q] == items[q]);
            }
        }
        lemma_rendered_owner(d, u, c, i);
    }
}

/// Rendering leaves a channel that no active item occupies at zero.
pub proof fn lemma_rendered_unowned(items: Seq<ItemView>, u: UniverseId, c: int)
    requires
        forall|i: int| 0 <= i < items.len() ==> !((#[trigger] items[i]).active && covers(items[i], u, c)),
    ensures
        rendered_at(items, u, c) == 0,
    decreases items.len(),
{
    if items.len() > 0 {
        let d = items.drop_last();
        assert(!(items[items.len() - 1].active && covers(items[items.len() - 1], u, c)));
        assert forall|i: int| 0 <= i < d.len() implies !((#[trigger] d[i]).active && covers(d[i], u, c)) by {
            assert(d[i] == items[i]);
        }
        lemma_rendered_unowned(d, u, c);
    }
}

/// In a patch, each channel of a universe summary names the fixture patched on it, and names
/// nothing where no fixture is patched.
pub proof fn law_summary_names_the_patched_fixture(v: PatchView, u: UniverseId, c: int)
    requires
        patch_wf(v),
    ensures
        forall|i: int|
            0 <= i < v.items.len() && #[trigger] covers(v.items[i], u, c) ==> summary_at(v.items, u, c)
                == Some(v.items[i].id),
        (forall|i: int| 0 <= i < v.items.len() ==> !#[trigger] covers(v.items[i], u, c)) ==> summary_at(
            v.items,
            u,
            c,
        ) is None,
{
    assert forall|i: int|
        0 <= i < v.items.len() && #[trigger] covers(v.items[i], u, c) implies summary_at(v.items, u, c)
        == Some(v.items[i].id) by {
        lemma_summary_owner(v.items, u, c, i);
    }
    if summary_at(v.items, u, c) is Some {
        lemma_summary_some(v.items, u, c);
    }
}

/// In a patch, rendering gives each channel the level that the active fixture patched on it
/// has for that channel, and zero where no active fixture is patched.
pub proof fn law_render_gives_patched_levels(v: PatchView, u: UniverseId, c: int)
    requires
        patch_wf(v),
    ensures
        forall|i: int|
            0 <= i < v.items.len() && v.items[i].active && #[trigger] covers(v.items[i], u, c)
                ==> rendered_at(v.items, u, c) == match v.items[i].address {
                Some((_, a)) => v.items[i].fixture.levels[c - (a - 1)],
                None => 0,
            },
        (forall|i: int|
            0 <= i < v.items.len() ==> !((#[trigger] v.items[i]).active && covers(v.items[i], u, c)))
            ==> rendered_at(v.items, u, c) == 0,
{
    assert forall|i: int|
        0 <= i < v.items.len() && v.items[i].active && #[trigger] covers(v.items[i], u, c) implies rendered_at(
        v.items,
        u,
        c,
    ) == match v.items[i].address {
        Some((_, a)) => v.items[i].fixture.levels[c - (a - 1)],
        None => 0,
    } by {
        lemma_rendered_owner(v.items, u, c, i);
    }
    if forall|i: int|
        0 <= i < v.items.len() ==> !((#[trigger] v.items[i]).active && covers(v.items[i], u, c)) {
        lemma_rendered_unowned(v.items, u, c);
    }
}

/// Every operation that changes a patch keeps it a patch, so no two patched fixtures ever share
/// a channel: the patch invariant implies that the patched fixtures are pairwise disjoint.
pub proof fn law_patched_fixtures_never_overlap(v: PatchView)
    requires
        patch_wf(v),
    ensures
        pairwise_disjoint(v.items),
        forall|i: int, j: int, c: int|
            0 <= i < v.items.len() && 0 <= j < v.items.len() && i != j ==> !(#[trigger] covers(
                v.items[i],
                u_of(v.items[i]),
                c,
            ) && #[trigger] covers(v.items[j], u_of(v.items[i]), c)),
{
    assert forall|i: int, j: int, c: int|
        0 <= i < v.items.len() && 0 <= j < v.items.len() && i != j implies !(#[trigger] covers(
        v.items[i],
        u_of(v.items[i]),
        c,
    ) && #[trigger] covers(v.items[j], u_of(v.items[i]), c)) by {
        assert(disjoint(v.items[i], v.items[j]));
        if covers(v.items[i], u_of(v.items[i]), c) && covers(v.items[j], u_of(v.items[i]), c) {
            lemma_covers_overlap(v.items[i], v.items[j], u_of(v.items[i]), c);
        }
    }
}

/// The universe an item is patched in, or 0 when it is not patched.
pub open spec fn u_of(it: ItemView) -> UniverseId {
    match it.address {
        Some((u, _)) => u,
        None => 0,
    }
}

// -------------------------
// The whole patch
// -------------------------

#[derive(Debug)]
pub struct Patch {
    universes: Vec<Option<Universe>>,
    items: Vec<PatchItem>,
    next_id: FixtureId,
}

pub open spec fn universes_view(us: Seq<Option<Universe>>) -> Seq<Option<UniverseView>> {
    us.map_values(|o: Option<Universe>| match o {
        Some(u) => Some(u@),
        None => None,
    })
}

pub open spec fn items_view(items: Seq<PatchItem>) -> Seq<ItemView> {
    items.map_values(|it: PatchItem| it@)
}

impl View for Patch {
    type V = PatchView;

    closed spec fn view(&self) -> PatchView {
        PatchView {
            universes: universes_view(self.universes@),
            items: items_view(self.items@),
            next_id: self.next_id,
        }
    }
}

impl Patch {
    pub open spec fn wf(&self) -> bool {
        patch_wf(self@)
    }

    /// An empty patch.
    pub fn new() -> (r: Self)
        ensures
            r.wf(),
            r@.universes.len() == 0,
            r@.items.len() == 0,
            r@.next_id == 0,
    {
        let r = Patch { universes: Vec::new(), items: Vec::new(), next_id: 0 };
        assert(r@.universes =~= Seq::empty());
        assert(r@.items =~= Seq::empty());
        r
    }

    /// The id that the next fixture added will get.
    pub fn next_fixture_id(&self) -> (r: FixtureId)
        ensures
            r == self@.next_id,
    {
        self.next_id
    }

    /// The number of universe slots, free or taken.
    pub fn universe_slots(&self) -> (r: usize)
        ensures
            r == self@.universes.len(),
    {
        self.universes.len()
    }

    /// Pairs of (universe id, name), one for each universe, in order of id.
    pub fn describe_universes(&self) -> (r: Vec<(UniverseId, &str)>)
        ensures
            r@.map_values(|p: (UniverseId, &str)| (p.0, p.1@)) == described(self@.universes),
    {
        let mut descriptions: Vec<(UniverseId, &str)> = Vec::new();
        let mut i: usize = 0;
        while i < self.universes.len()
            invariant
                i <= self.universes@.len(),
                descriptions@.map_values(|p: (UniverseId, &str)| (p.0, p.1@)) == described(
                    universes_view(self.universes@).take(i as int),
                ),
            decreases self.universes@.len() - i,
        {
            let ghost us = universes_view(self.universes@);
            assert(us.take(i + 1).drop_last() =~= us.take(i as int));
            match &self.universes[i] {
                Some(u) => {
                    descriptions.push((i as UniverseId, u.name.as_str()));
                },
                None => {},
            }
            proof {
                assert(descriptions@.map_values(|p: (UniverseId, &str)| (p.0, p.1@)) =~= described(
                    us.take(i + 1),
                ));
            }
            i = i + 1;
        }
        assert(universes_view(self.universes@).take(i as int) =~= self@.universes);
        descriptions
    }

    /// The fixtures in the patch, in patch order.
    pub fn items(&self) -> (r: &Vec<PatchItem>)
        ensures
            items_view(r@) == self@.items,
    {
        &self.items
    }

    /// Add a universe at the first free id, and return that id.
    pub fn add_universe(&mut self, universe: Universe) -> (r: UniverseId)
        requires
            old(self).wf(),
            old(self)@.universes.len() < u32::MAX,
        ensures
            final(self).wf(),
            final(self)@.items == old(self)@.items,
            final(self)@.next_id == old(self)@.next_id,
            first_free(old(self)@.universes) < old(self)@.universes.len() ==> r == first_free(
                old(self)@.universes,
            ) as UniverseId && final(self)@.universes == old(self)@.universes.update(
                first_free(old(self)@.universes),
                Some(universe@),
            ),
            first_free(old(self)@.universes) == old(self)@.universes.len() ==> r
                == old(self)@.universes.len() as UniverseId && final(self)@.universes == old(
                self,
            )@.universes.push(Some(universe@)),
    {
        let ghost old_view = self@;
        let mut i: usize = 0;
        while i < self.universes.len() && self.universes[i].is_some()
            invariant
                i <= self.universes@.len(),
                forall|j: int| 0 <= j < i ==> #[trigger] self.universes@[j] is Some,
            decreases self.universes@.len() - i,
        {
            i = i + 1;
        }
        proof {
            lemma_first_free(old_view.universes, i as int);
        }
        if i < self.universes.len() {
            self.universes.set(i, Some(universe));
            proof {
                assert(self@.universes =~= old_view.universes.update(i as int, Some(universe@)));
                assert(self@.items =~= old_view.items);
            }
            i as UniverseId
        } else {
            self.universes.push(Some(universe));
            proof {
                assert(self@.universes =~= old_view.universes.push(Some(universe@)));
                assert(self@.items =~= old_view.items);
            }
            i as UniverseId
        }
    }

    /// The position of the first item with this id, if any.
    fn position(&self, id: FixtureId) -> (r: Option<usize>)
        ensures
            match r {
                Some(i) => is_first_with_id(self@.items, id, i as int),
                None => !has_id(self@.items, id),
            },
    {
        let mut i: usize = 0;
        while i < self.items.len()
            invariant
                i <= self.items@.len(),
                forall|j: int| 0 <= j < i ==> #[trigger] self@.items[j].id != id,
            decreases self.items@.len() - i,
        {
            if self.items[i].id == id {
                return Some(i);
            }
            i = i + 1;
        }
        None
    }

    /// The item with this id.
    pub fn item(&self, id: FixtureId) -> (r: Result<&PatchItem, PatchError>)
        ensures
            match r {
                Ok(it) => exists|i: int| is_first_with_id(self@.items, id, i) && it@ == self@.items[i],
                Err(e) => e == PatchError::InvalidFixtureId(id) && !has_id(self@.items, id),
            },
    {
        match self.position(id) {
            Some(i) => Ok(&self.items[i]),
            None => Err(PatchError::InvalidFixtureId(id)),
        }
    }

    /// A mutable reference to the item with this id.
    pub fn item_mut(&mut self, id: FixtureId) -> (r: Result<&mut PatchItem, PatchError>)
        ensures
            match r {
                Ok(it) => exists|i: int|
                    is_first_with_id(old(self)@.items, id, i) && it@ == old(self)@.items[i]
                        && final(self)@.items =~= old(self)@.items.update(i, final(it)@)
                        && final(self)@.universes == old(self)@.universes && final(self)@.next_id
                        == old(self)@.next_id,
                Err(e) => e == PatchError::InvalidFixtureId(id) && !has_id(old(self)@.items, id)
                    && final(self)@ == old(self)@,
            },
    {
        match self.position(id) {
            Some(i) => {
                Ok(&mut self.items[i])
            },
            None => Err(PatchError::InvalidFixtureId(id)),
        }
    }

    /// The universe with this id.
    pub fn universe(&self, id: UniverseId) -> (r: Result<&Universe, PatchError>)
        ensures
            match r {
                Ok(u) => universe_exists(self@, id) && Some(u@) == self@.universes[id as int],
                Err(e) => e == PatchError::InvalidUniverseId(id) && !universe_exists(self@, id),
            },
    {
        if (id as usize) < self.universes.len() {
            match &self.universes[id as usize] {
                Some(u) => Ok(u),
                None => Err(PatchError::InvalidUniverseId(id)),
            }
        } else {
            Err(PatchError::InvalidUniverseId(id))
        }
    }

    /// The next fixture id; it is consumed.
    fn next_id(&mut self) -> (r: FixtureId)
        requires
            old(self).next_id < u32::MAX,
        ensures
            r == old(self).next_id,
            final(self).next_id == r + 1,
            final(self).items == old(self).items,
            final(self).universes == old(self).universes,
    {
        let next = self.next_id;
        self.next_id = self.next_id + 1;
        next
    }

    /// Add a new fixture of this profile to the patch, unpatched and active.  It takes the given
    /// name, or the profile's name.  Return the fixture's id.
    pub fn add(&mut self, profile: &Profile, name: Option<String>) -> (r: FixtureId)
        requires
            old(self).wf(),
            old(self)@.next_id < u32::MAX,
        ensures
            final(self).wf(),
            r == old(self)@.next_id,
            final(self)@ == added(old(self)@, *profile, name),
    {
        let ghost old_view = self@;
        let id = self.next_id();
        let name = match name {
            Some(n) => n,
            None => String::from_str(profile.name),
        };
        let fixture = profile.create_fixture();
        let item = PatchItem { id, name, address: None, active: true, fixture };
        proof {
            assert(item@.fixture == fresh_fixture(*profile));
        }
        self.items.push(item);
        proof {
            assert(self@.items =~= old_view.items.push(item@));
            assert(self@.universes =~= old_view.universes);
        }
        id
    }

    /// Delete a universe.  Unless `force` is set, fail if any fixture is patched in it.
    /// Fixtures patched in it are unpatched.
    pub fn remove_universe(&mut self, id: UniverseId, force: bool) -> (r: Result<(), PatchError>)
        requires
            old(self).wf(),
        ensures
            final(self).wf(),
            !force && universe_in_use(old(self)@.items, id) ==> r == Err::<(), PatchError>(
                PatchError::NonEmptyUniverse(id),
            ) && final(self)@ == old(self)@,
            force || !universe_in_use(old(self)@.items, id) ==> {
                &&& final(self)@.items == unpatched_from(old(self)@.items, id)
                &&& final(self)@.next_id == old(self)@.next_id
                &&& id < old(self)@.universes.len() ==> r is Ok && final(self)@.universes == old(
                    self,
                )@.universes.update(id as int, None)
                &&& id >= old(self)@.universes.len() ==> r == Err::<(), PatchError>(
                    PatchError::InvalidUniverseId(id),
                ) && final(self)@.universes == old(self)@.universes
            },
    {
        let ghost old_view = self@;
        if !force {
            let mut i: usize = 0;
            while i < self.items.len()
                invariant
                    i <= self.items@.len(),
                    !force,
                    self@ == old_view,
                    patch_wf(old_view),
                    forall|j: int| 0 <= j < i ==> !in_universe(#[trigger] self@.items[j], id),
                decreases self.items@.len() - i,
            {
                match self.items[i].address {
                    Some((u, _)) => {
                        if u == id {
                            assert(in_universe(self@.items[i as int], id));
                            assert(universe_in_use(old_view.items, id));
                            return Err(PatchError::NonEmptyUniverse(id));
                        }
                    },
                    None => {},
                }
                i = i + 1;
            }
        }
        let mut i: usize = 0;
        while i < self.items.len()
            invariant
                i <= self.items@.len(),
                self.items@.len() == old_view.items.len(),
                self@.universes == old_view.universes,
                self@.next_id == old_view.next_id,
                forall|j: int|
                    0 <= j < self.items@.len() ==> #[trigger] self@.items[j] == if j < i {
                        unpatched_from(old_view.items, id)[j]
                    } else {
                        old_view.items[j]
                    },
            decreases self.items@.len() - i,
        {
            let in_u = match self.items[i].address {
                Some((u, _)) => u == id,
                None => false,
            };
            let ghost before = self.items@;
            let ghost before_view = self@.items;
            assert(self@.items[i as int] == old_view.items[i as int]);
            if in_u {
                self.items[i].address = None;
            }
            proof {
                assert(self@.items[i as int] == unpatched_from(old_view.items, id)[i as int]);
                assert forall|j: int| 0 <= j < self.items@.len() && j != i implies #[trigger] self@.items[j]
                    == before_view[j] by {
                    assert(self.items@[j] == before[j]);
                }
            }
            i = i + 1;
        }
        assert(self@.items =~= unpatched_from(old_view.items, id));
        if (id as usize) < self.universes.len() {
            self.universes.set(id as usize, None);
            assert(self@.universes =~= old_view.universes.update(id as int, None));
            Ok(())
        } else {
            Err(PatchError::InvalidUniverseId(id))
        }
    }

    /// Which fixture occupies each channel of a universe.
    pub fn universe_summary(&self, id: UniverseId) -> (r: Result<
        [Option<FixtureId>; 512],
        PatchError,
    >)
        requires
            self.wf(),
        ensures
            match r {
                Ok(summary) => universe_exists(self@, id) && forall|c: int|
                    0 <= c < UNIVERSE_SIZE ==> #[trigger] summary@[c] == summary_at(
                        self@.items,
                        id,
                        c,
                    ),
                Err(e) => e == PatchError::InvalidUniverseId(id) && !universe_exists(self@, id),
            },
    {
        match self.universe(id) {
            Ok(_) => {},
            Err(e) => {
                return Err(e);
            },
        }
        let mut summary: [Option<FixtureId>; 512] = [None; 512];
        let mut k: usize = 0;
        while k < self.items.len()
            invariant
                self.wf(),
                k <= self.items@.len(),
                summary@.len() == UNIVERSE_SIZE,
                forall|c: int|
                    0 <= c < UNIVERSE_SIZE ==> #[trigger] summary@[c] == summary_at(
                        self@.items.take(k as int),
                        id,
                        c,
                    ),
            decreases self.items@.len() - k,
        {
            let ghost prefix = self@.items.take(k as int);
            let ghost next = self@.items.take(k + 1);
            assert(next.drop_last() =~= prefix);
            assert(next.last() == self@.items[k as int]);
            match self.items[k].address {
                Some((univ, addr)) => {
                    if univ == id {
                        let item_id = self.items[k].id;
                        let a = addr as usize - 1;
                        let n = self.items[k].fixture.channel_count as usize;
                        assert(self@.items[k as int].address == Some((univ, addr)));
                        let mut j: usize = a;
                        while j < a + n
                            invariant
                                a <= j <= a + n,
                                a + n <= UNIVERSE_SIZE,
                                summary@.len() == UNIVERSE_SIZE,
                                forall|c: int|
                                    0 <= c < UNIVERSE_SIZE ==> #[trigger] summary@[c] == if a <= c
                                        < j {
                                        Some(item_id)
                                    } else {
                                        summary_at(prefix, id, c)
                                    },
                            decreases a + n - j,
                        {
                            summary[j] = Some(item_id);
                            j = j + 1;
                        }
                    }
                },
                None => {},
            }
            k = k + 1;
        }
        assert(self@.items.take(k as int) =~= self@.items);
        Ok(summary)
    }

    /// Patch a fixture at an address of a universe.  Fail if the address is out of range, the
    /// universe or the fixture does not exist, the fixture does not fit in the universe at that
    /// address, or its channels there are taken by patched fixtures (the fixture itself included).
    pub fn repatch(&mut self, id: FixtureId, universe: UniverseId, address: DmxAddress) -> (r: Result<
        (),
        PatchError,
    >)
        requires
            old(self).wf(),
            address_in_range(address) ==> forall|i: int|
                0 <= i < old(self)@.items.len() && #[trigger] old(self)@.items[i].id == id ==> address
                    - 1 + old(self)@.items[i].fixture.channel_count <= u16::MAX,
        ensures
            final(self).wf(),
            match repatch_result(old(self)@, id, universe, address) {
                Ok(_) => r is Ok && final(self)@ == with_address(
                    old(self)@,
                    first_with_id(old(self)@.items, id),
                    universe,
                    address,
                ),
                Err(e) => r matches Err(x) && x@ == e && final(self)@ == old(self)@,
            },
    {
        let ghost old_view = self@;
        let address = match valid_address(address) {
            Ok(a) => a,
            Err(e) => {
                return Err(e);
            },
        };
        let univ_summary = match self.universe_summary(universe) {
            Ok(s) => s,
            Err(e) => {
                return Err(e);
            },
        };
        let i = match self.position(id) {
            Some(i) => i,
            None => {
                return Err(PatchError::InvalidFixtureId(id));
            },
        };
        proof {
            lemma_first_unique(old_view.items, id, i as int);
        }
        let n_chan = self.items[i].channel_count();
        let start = address - 1;
        let end = start + n_chan;
        if end as usize > UNIVERSE_SIZE {
            return Err(PatchError::FixtureTooLongForAddress(address, n_chan));
        }
        let ghost a = start as int;
        let ghost n = n_chan as int;
        let mut conflicting: Vec<FixtureId> = Vec::new();
        let mut c: usize = start as usize;
        while c < end as usize
            invariant
                a <= c <= a + n,
                a + n <= UNIVERSE_SIZE,
                end == a + n,
                forall|x: int|
                    0 <= x < UNIVERSE_SIZE ==> #[trigger] univ_summary@[x] == summary_at(
                        old_view.items,
                        universe,
                        x,
                    ),
                conflicting@ == distinct_runs(owners(old_view.items, universe, a, c - a)),
            decreases a + n - c,
        {
            let ghost before = owners(old_view.items, universe, a, c - a);
            let ghost after = owners(old_view.items, universe, a, c + 1 - a);
            assert(after.drop_last() =~= before);
            assert(after.last() == univ_summary@[c as int]);
            match univ_summary[c] {
                Some(x) => {
                    let len = conflicting.len();
                    if len == 0 || conflicting[len - 1] != x {
                        conflicting.push(x);
                    }
                },
                None => {},
            }
            c = c + 1;
        }
        if conflicting.len() == 0 {
            self.items[i].address = Some((universe, address));
            proof {
                let nv = with_address(old_view, i as int, universe, address);
                assert(self@.items =~= nv.items);
                let os = owners(old_view.items, universe, a, n);
                lemma_distinct_runs_empty(os);
                assert forall|j: int, x: int|
                    0 <= j < old_view.items.len() && a <= x < a + n implies !#[trigger] covers(
                    old_view.items[j],
                    universe,
                    x,
                ) by {
                    assert(os[x - a] is None);
                    lemma_summary_none(old_view.items, universe, x);
                }
                assert forall|p: int, q: int|
                    0 <= p < nv.items.len() && 0 <= q < nv.items.len() && p != q implies disjoint(
                    #[trigger] nv.items[p],
                    #[trigger] nv.items[q],
                ) by {
                    if p == i {
                        lemma_disjoint_free(old_view.items[q], nv.items[p], universe, address);
                    } else if q == i {
                        lemma_disjoint_free(old_view.items[p], nv.items[q], universe, address);
                    } else {
                        assert(disjoint(old_view.items[p], old_view.items[q]));
                    }
                }
            }
            Ok(())
        } else {
            Err(PatchError::AddressConflict(id, universe, address, conflicting))
        }
    }

    /// Add a new fixture of this profile, named `name` or after the profile, and patch it at an
    /// address of a universe.  If the patching fails, the fixture is removed again, and only its
    /// id stays used up.
    pub fn add_at_address(
        &mut self,
        profile: &Profile,
        name: Option<String>,
        universe: UniverseId,
        address: DmxAddress,
    ) -> (r: Result<FixtureId, PatchError>)
        requires
            old(self).wf(),
            old(self)@.next_id < u32::MAX,
            address_in_range(address) ==> address - 1 + profile.channel_count <= u16::MAX,
        ensures
            final(self).wf(),
            match repatch_result(added(old(self)@, *profile, name), old(self)@.next_id, universe, address) {
                Ok(_) => r == Ok::<FixtureId, PatchError>(old(self)@.next_id) && final(self)@
                    == with_address(
                    added(old(self)@, *profile, name),
                    old(self)@.items.len() as int,
                    universe,
                    address,
                ),
                Err(e) => r matches Err(x) && x@ == e && final(self)@ == (PatchView {
                    next_id: (old(self)@.next_id + 1) as FixtureId,
                    ..old(self)@
                }),
            },
    {
        let ghost old_view = self@;
        let id = self.add(profile, name);
        let ghost v1 = self@;
        proof {
            let last = old_view.items.len() as int;
            assert(is_first_with_id(v1.items, id, last));
            lemma_first_unique(v1.items, id, last);
        }
        match self.repatch(id, universe, address) {
            Ok(_) => Ok(id),
            Err(e) => {
                let removed = self.remove(id);
                proof {
                    let last = old_view.items.len() as int;
                    let i = choose|i: int|
                        is_first_with_id(v1.items, id, i) && removed->0@ == v1.items[i]
                            && self@ == (PatchView {
                            items: v1.items.update(i, v1.items.last()).drop_last(),
                            ..v1
                        });
                    lemma_first_unique(v1.items, id, i);
                    assert(self@.items =~= old_view.items);
                }
                Err(e)
            },
        }
    }

    /// Unpatch a fixture.
    pub fn unpatch(&mut self, id: FixtureId) -> (r: Result<(), PatchError>)
        requires
            old(self).wf(),
        ensures
            final(self).wf(),
            has_id(old(self)@.items, id) ==> r is Ok && final(self)@ == (PatchView {
                items: old(self)@.items.update(
                    first_with_id(old(self)@.items, id),
                    ItemView { address: None, ..old(self)@.items[first_with_id(old(self)@.items, id)] },
                ),
                ..old(self)@
            }),
            !has_id(old(self)@.items, id) ==> r == Err::<(), PatchError>(
                PatchError::InvalidFixtureId(id),
            ) && final(self)@ == old(self)@,
    {
        let ghost old_view = self@;
        match self.position(id) {
            Some(i) => {
                proof {
                    lemma_first_unique(old_view.items, id, i as int);
                }
                self.items[i].address = None;
                proof {
                    let expected = old_view.items.update(
                        i as int,
                        ItemView { address: None, ..old_view.items[i as int] },
                    );
                    assert(self@.items =~= expected);
                    assert forall|p: int, q: int|
                        0 <= p < expected.len() && 0 <= q < expected.len() && p != q implies disjoint(
                        #[trigger] expected[p],
                        #[trigger] expected[q],
                    ) by {
                        assert(disjoint(old_view.items[p], old_view.items[q]));
                    }
                }
                Ok(())
            },
            None => Err(PatchError::InvalidFixtureId(id)),
        }
    }

    /// Set whether a fixture is rendered.  An inactive fixture is ignored during DMX output.
    pub fn set_active(&mut self, id: FixtureId, state: bool) -> (r: Result<(), PatchError>)
        requires
            old(self).wf(),
        ensures
            final(self).wf(),
            has_id(old(self)@.items, id) ==> r is Ok && final(self)@ == (PatchView {
                items: old(self)@.items.update(
                    first_with_id(old(self)@.items, id),
                    ItemView { active: state, ..old(self)@.items[first_with_id(old(self)@.items, id)] },
                ),
                ..old(self)@
            }),
            !has_id(old(self)@.items, id) ==> r == Err::<(), PatchError>(
                PatchError::InvalidFixtureId(id),
            ) && final(self)@ == old(self)@,
    {
        let ghost old_view = self@;
        match self.position(id) {
            Some(i) => {
                proof {
                    lemma_first_unique(old_view.items, id, i as int);
                }
                self.items[i].active = state;
                proof {
                    let expected = old_view.items.update(
                        i as int,
                        ItemView { active: state, ..old_view.items[i as int] },
                    );
                    assert(self@.items =~= expected);
                    assert forall|p: int, q: int|
                        0 <= p < expected.len() && 0 <= q < expected.len() && p != q implies disjoint(
                        #[trigger] expected[p],
                        #[trigger] expected[q],
                    ) by {
                        assert(disjoint(old_view.items[p], old_view.items[q]));
                    }
                }
                Ok(())
            },
            None => Err(PatchError::InvalidFixtureId(id)),
        }
    }

    /// Render every fixture to DMX: every universe buffer is cleared, then each active patched
    /// fixture writes its levels at its address.  Writing the buffers to their ports is left to
    /// the caller.
    pub fn render(&mut self)
        requires
            old(self).wf(),
        ensures
            final(self).wf(),
            final(self)@.items == old(self)@.items,
            final(self)@.next_id == old(self)@.next_id,
            final(self)@.universes.len() == old(self)@.universes.len(),
            forall|u: int|
                0 <= u < old(self)@.universes.len() ==> rendered_universe(
                    #[trigger] final(self)@.universes[u],
                    old(self)@.universes[u],
                    |c: int| rendered_at(old(self)@.items, u as UniverseId, c),
                ),
    {
        let ghost old_view = self@;
        let mut w: usize = 0;
        while w < self.universes.len()
            invariant
                w <= self.universes@.len(),
                self@.items == old_view.items,
                self@.next_id == old_view.next_id,
                self@.universes.len() == old_view.universes.len(),
                forall|u: int|
                    0 <= u < old_view.universes.len() ==> same_shape(
                        #[trigger] self@.universes[u],
                        old_view.universes[u],
                    ),
                forall|u: int|
                    0 <= u < w ==> rendered_universe(
                        #[trigger] self@.universes[u],
                        old_view.universes[u],
                        |c: int| 0u8,
                    ),
            decreases self.universes@.len() - w,
        {
            let ghost before = self.universes@;
            let ghost before_view = self@.universes;
            match &mut self.universes[w] {
                Some(un) => {
                    un.buffer = empty_buffer();
                },
                None => {},
            }
            proof {
                assert forall|u: int| 0 <= u < self.universes@.len() && u != w implies #[trigger] self@.universes[u]
                    == before_view[u] by {
                    assert(self.universes@[u] == before[u]);
                }
                match before[w as int] {
                    Some(b) => {
                        let nu = self.universes@[w as int]->0;
                        assert(self@.universes[w as int] == Some(nu@));
                        assert(nu@.name == b@.name);
                        assert(forall|c: int| 0 <= c < UNIVERSE_SIZE ==> nu@.buffer[c] == 0);
                    },
                    None => {
                        assert(self.universes@[w as int] is None);
                    },
                }
                assert forall|u: int| 0 <= u < old_view.universes.len() implies same_shape(
                    #[trigger] self@.universes[u],
                    old_view.universes[u],
                ) by {
                    if u != w {
                        assert(same_shape(before_view[u], old_view.universes[u]));
                    }
                }
                assert forall|u: int| 0 <= u < w + 1 implies rendered_universe(
                    #[trigger] self@.universes[u],
                    old_view.universes[u],
                    |c: int| 0u8,
                ) by {
                    if u != w {
                        assert(rendered_universe(before_view[u], old_view.universes[u], |c: int| 0u8));
                    }
                }
            }
            w = w + 1;
        }
        let mut k: usize = 0;
        while k < self.items.len()
            invariant
                patch_wf(old_view),
                k <= self.items@.len(),
                self@.items == old_view.items,
                self@.next_id == old_view.next_id,
                self@.universes.len() == old_view.universes.len(),
                forall|u: int|
                    0 <= u < old_view.universes.len() ==> rendered_universe(
                        #[trigger] self@.universes[u],
                        old_view.universes[u],
                        |c: int| rendered_at(old_view.items.take(k as int), u as UniverseId, c),
                    ),
            decreases self.items@.len() - k,
        {
            let ghost prefix = old_view.items.take(k as int);
            let ghost next = old_view.items.take(k + 1);
            let ghost it = old_view.items[k as int];
            assert(next.drop_last() =~= prefix);
            assert(next.last() == it);
            assert(self.items@[k as int]@ == it);
            let ghost before = self.universes@;
            let ghost before_view = self@.universes;
            let mut target: usize = self.universes.len();
            if self.items[k].active {
                match self.items[k].address {
                    Some((uid, addr)) => {
                        let ui = uid as usize;
                        if ui < self.universes.len() {
                            target = ui;
                            match &mut self.universes[ui] {
                                Some(un) => {
                                    assert(it.fixture.wf());
                                    self.items[k].fixture.render(&mut un.buffer, addr as usize - 1);
                                },
                                None => {},
                            }
                        }
                    },
                    None => {},
                }
            }
            proof {
                assert forall|u: int|
                    0 <= u < self.universes@.len() && u != target implies #[trigger] self@.universes[u]
                    == before_view[u] by {
                    assert(self.universes@[u] == before[u]);
                }
                assert forall|u: int| 0 <= u < old_view.universes.len() implies rendered_universe(
                    #[trigger] self@.universes[u],
                    old_view.universes[u],
                    |c: int| rendered_at(next, u as UniverseId, c),
                ) by {
                    assert(rendered_universe(
                        before_view[u],
                        old_view.universes[u],
                        |c: int| rendered_at(prefix, u as UniverseId, c),
                    ));
                    if u != target {
                        assert forall|c: int| 0 <= c < UNIVERSE_SIZE implies #[trigger] rendered_at(
                            next,
                            u as UniverseId,
                            c,
                        ) == rendered_at(prefix, u as UniverseId, c) by {
                            if it.active && covers(it, u as UniverseId, c) {
                                assert(u == target);
                            }
                        }
                    } else {
                        let nu = self.universes@[u]->0;
                        assert(self@.universes[u] == Some(nu@));
                    }
                }
            }
            k = k + 1;
        }
        assert(old_view.items.take(k as int) =~= old_view.items);
        assert forall|u: int|
            0 <= u < self@.universes.len() implies #[trigger] self@.universes[u] matches Some(uv) ==> uv.buffer.len()
                == UNIVERSE_SIZE by {
            assert(same_shape(self@.universes[u], old_view.universes[u]));
        }
        assert forall|i: int|
            0 <= i < self@.items.len() implies match (#[trigger] self@.items[i]).address {
                Some((u, a)) => universe_exists(self@, u) && 1 <= a && a - 1
                    + self@.items[i].fixture.channel_count <= UNIVERSE_SIZE,
                None => true,
            } by {
            match self@.items[i].address {
                Some((u, a)) => {
                    assert(universe_exists(old_view, u));
                    assert(same_shape(self@.universes[u as int], old_view.universes[u as int]));
                },
                None => {},
            }
        }
    }

    /// Remove the fixture with this id, if there is one, and return it.  The last fixture takes
    /// its place in patch order.
    pub fn remove(&mut self, id: FixtureId) -> (r: Option<PatchItem>)
        requires
            old(self).wf(),
        ensures
            final(self).wf(),
            match r {
                Some(it) => exists|i: int|
                    is_first_with_id(old(self)@.items, id, i) && it@ == old(self)@.items[i]
                        && final(self)@ == (PatchView {
                        items: old(self)@.items.update(i, old(self)@.items.last()).drop_last(),
                        ..old(self)@
                    }),
                None => !has_id(old(self)@.items, id) && final(self)@ == old(self)@,
            },
    {
        let ghost old_view = self@;
        match self.position(id) {
            Some(i) => {
                let it = self.items.swap_remove(i);
                proof {
                    let expected = old_view.items.update(i as int, old_view.items.last()).drop_last();
                    assert(self@.items =~= expected);
                    assert(self@.universes =~= old_view.universes);
                    assert forall|a: int, b: int|
                        0 <= a < expected.len() && 0 <= b < expected.len() && a != b implies #[trigger] expected[a].id
                            != #[trigger] expected[b].id && disjoint(expected[a], expected[b]) by {
                        let a0 = if a == i { old_view.items.len() - 1 } else { a };
                        let b0 = if b == i { old_view.items.len() - 1 } else { b };
                        assert(expected[a] == old_view.items[a0]);
                        assert(expected[b] == old_view.items[b0]);
                    }
                }
                Some(it)
            },
            None => None,
        }
    }
}

} // verus!

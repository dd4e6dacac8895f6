//! Requests to the fixture patch, and patching a batch of fixtures at once.
use vstd::prelude::*;
use crate::clients::ResponseFilter;
use crate::patch::{
    added, address_in_range, first_free, first_with_id, has_id, in_universe, is_first_with_id, items_view,
    lemma_first_unique, patch_wf, profile_in, profile_named, profile_table, profiles,
    repatch_result, universe_exists, universe_in_use, unpatched_from, with_address, DmxAddress,
    DmxChannelCount, FixtureId, ItemView, Patch, PatchError, PatchErrorView, PatchItem, PatchView,
    Profile, Universe, UniverseId, UniverseView,
};
use crate::reactor::Messages;

verus! {

/// A universe and an address in it.
pub type GlobalAddress = (UniverseId, DmxAddress);

/// A request to add a fixture of a kind to the patch, optionally at an address.
#[derive(Debug, Clone, PartialEq, Eq)]
pub struct PatchRequest {
    pub name: String,
    pub kind: String,
    pub address: Option<GlobalAddress>,
}

/// A kind of fixture that can be patched.
#[derive(Debug, Clone, PartialEq, Eq)]
pub struct FixtureKindDescription {
    pub name: String,
    pub channel_count: DmxChannelCount,
}

impl FixtureKindDescription {
    /// Describe the kind of fixture that a profile creates.
    pub fn from_profile(profile: &Profile) -> (r: Self)
        ensures
            r.name@ == profile.name@,
            r.channel_count == profile.channel_count,
    {
        FixtureKindDescription {
            name: String::from_str(profile.name),
            channel_count: profile.channel_count,
        }
    }
}

/// A universe together with the port it is attached to.
#[derive(Debug, Clone, PartialEq, Eq)]
pub struct UnivWithPort {
    pub universe: UniverseId,
    pub port_namespace: String,
    pub port_id: String,
}

impl UnivWithPort {
    pub fn new(id: UniverseId, namespace: String, port_id: String) -> (r: Self)
        ensures
            r.universe == id,
            r.port_namespace == namespace,
            r.port_id == port_id,
    {
        UnivWithPort { universe: id, port_namespace: namespace, port_id }
    }
}

/// Requests that clients make of the fixture patch; `S` names the sources that fixture controls
/// can be attached to.
#[derive(Debug, Clone, PartialEq, Eq)]
pub enum PatchServerRequest<S> {
    PatchState,
    NewPatches(Vec<PatchRequest>),
    Rename(FixtureId, String),
    Repatch(FixtureId, Option<GlobalAddress>),
    Remove(FixtureId),
    GetKinds,
    AddUniverse,
    RemoveUniverse(UniverseId, bool),
    AttachPort(UnivWithPort),
    AvailablePorts,
    SetControlSource(FixtureId, usize, Option<S>),
}

/// Errors from a request to the fixture patch.
#[derive(Debug, PartialEq, Eq)]
pub enum PatchRequestError {
    PatchError(PatchError),
    ProfileNotFound(String),
    /// A DMX port could not be opened; the message says why.
    PortError(String),
}

/// What a `PatchRequestError` holds, as sequences.
pub enum RequestErrorView {
    PatchError(PatchErrorView),
    ProfileNotFound(Seq<char>),
    PortError(Seq<char>),
}

impl View for PatchRequestError {
    type V = RequestErrorView;

    open spec fn view(&self) -> RequestErrorView {
        match self {
            PatchRequestError::PatchError(e) => RequestErrorView::PatchError(e@),
            PatchRequestError::ProfileNotFound(k) => RequestErrorView::ProfileNotFound(k@),
            PatchRequestError::PortError(m) => RequestErrorView::PortError(m@),
        }
    }
}

/// What clients are told of a fixture in the patch.
#[derive(Debug, Clone, PartialEq, Eq)]
pub struct PatchItemDescription {
    pub id: FixtureId,
    pub name: String,
    pub kind: String,
    pub address: Option<GlobalAddress>,
    pub channel_count: DmxChannelCount,
}

/// What a `PatchItemDescription` holds, with its strings as sequences.
pub struct ItemDescriptionView {
    pub id: FixtureId,
    pub name: Seq<char>,
    pub kind: Seq<char>,
    pub address: Option<GlobalAddress>,
    pub channel_count: DmxChannelCount,
}

impl View for PatchItemDescription {
    type V = ItemDescriptionView;

    open spec fn view(&self) -> ItemDescriptionView {
        ItemDescriptionView {
            id: self.id,
            name: self.name@,
            kind: self.kind@,
            address: self.address,
            channel_count: self.channel_count,
        }
    }
}

/// The description of a patched fixture.
pub open spec fn description_of(it: ItemView) -> ItemDescriptionView {
    ItemDescriptionView {
        id: it.id,
        name: it.name,
        kind: it.fixture.kind,
        address: it.address,
        channel_count: it.fixture.channel_count,
    }
}

/// The descriptions of these fixtures, in order.
pub open spec fn descriptions_of(items: Seq<ItemView>) -> Seq<ItemDescriptionView> {
    items.map_values(|it: ItemView| description_of(it))
}

impl PatchItemDescription {
    /// Describe a patched fixture.
    pub fn from_item(item: &PatchItem) -> (r: Self)
        ensures
            r@ == description_of(item@),
    {
        PatchItemDescription {
            id: item.id(),
            name: String::from_str(item.name()),
            kind: String::from_str(item.kind()),
            address: item.address(),
            channel_count: item.channel_count(),
        }
    }
}

/// The descriptions of the fixtures from position `from` on, in patch order.
fn describe_items(items: &Vec<PatchItem>, from: usize) -> (r: Vec<PatchItemDescription>)
    requires
        from <= items@.len(),
    ensures
        r@.map_values(|d: PatchItemDescription| d@) == descriptions_of(items_view(items@).skip(from as int)),
{
    let mut r: Vec<PatchItemDescription> = Vec::new();
    let mut k: usize = from;
    while k < items.len()
        invariant
            from <= k <= items@.len(),
            r@.len() == k - from,
            forall|i: int| 0 <= i < r@.len() ==> #[trigger] r@[i]@ == description_of(items@[from + i]@),
        decreases items@.len() - k,
    {
        let d = PatchItemDescription::from_item(&items[k]);
        r.push(d);
        k = k + 1;
    }
    let ghost want = descriptions_of(items_view(items@).skip(from as int));
    assert forall|i: int| 0 <= i < r@.len() implies r@.map_values(|d: PatchItemDescription| d@)[i]
        == want[i] by {
        assert(r@[i]@ == description_of(items@[from + i]@));
    }
    assert(r@.map_values(|d: PatchItemDescription| d@) =~= want);
    r
}

/// What a `UnivWithPort` holds, with its strings as sequences.
pub open spec fn port_view(p: UnivWithPort) -> (UniverseId, Seq<char>, Seq<char>) {
    (p.universe, p.port_namespace@, p.port_id@)
}

/// Responses of the fixture patch to its clients.
#[derive(Debug, Clone, PartialEq, Eq)]
pub enum PatchServerResponse {
    PatchState(Vec<PatchItemDescription>, Vec<UnivWithPort>),
    NewPatches(Vec<PatchItemDescription>),
    Update(PatchItemDescription),
    Remove(FixtureId),
    Kinds(Vec<FixtureKindDescription>),
    UpdateUniverse(UnivWithPort),
    UniverseRemoved(UniverseId),
    AvailablePorts(Vec<(String, String)>),
}

/// What a `PatchServerResponse` holds, with strings and vectors as sequences.
pub enum ResponseView {
    PatchState(Seq<ItemDescriptionView>, Seq<(UniverseId, Seq<char>, Seq<char>)>),
    NewPatches(Seq<ItemDescriptionView>),
    Update(ItemDescriptionView),
    Remove(FixtureId),
    Kinds(Seq<(Seq<char>, DmxChannelCount)>),
    UpdateUniverse((UniverseId, Seq<char>, Seq<char>)),
    UniverseRemoved(UniverseId),
    AvailablePorts(Seq<(Seq<char>, Seq<char>)>),
}

/// The names and channel counts of these kinds.
pub open spec fn kinds_view(ks: Seq<FixtureKindDescription>) -> Seq<(Seq<char>, DmxChannelCount)> {
    ks.map_values(|k: FixtureKindDescription| (k.name@, k.channel_count))
}

/// The namespaces and ids of these ports.
pub open spec fn ports_view(ps: Seq<(String, String)>) -> Seq<(Seq<char>, Seq<char>)> {
    ps.map_values(|p: (String, String)| (p.0@, p.1@))
}

impl View for PatchServerResponse {
    type V = ResponseView;

    open spec fn view(&self) -> ResponseView {
        match self {
            PatchServerResponse::PatchState(ds, us) => ResponseView::PatchState(
                ds@.map_values(|d: PatchItemDescription| d@),
                us@.map_values(|u: UnivWithPort| port_view(u)),
            ),
            PatchServerResponse::NewPatches(ds) => ResponseView::NewPatches(
                ds@.map_values(|d: PatchItemDescription| d@),
            ),
            PatchServerResponse::Update(d) => ResponseView::Update(d@),
            PatchServerResponse::Remove(id) => ResponseView::Remove(*id),
            PatchServerResponse::Kinds(ks) => ResponseView::Kinds(kinds_view(ks@)),
            PatchServerResponse::UpdateUniverse(u) => ResponseView::UpdateUniverse(port_view(*u)),
            PatchServerResponse::UniverseRemoved(id) => ResponseView::UniverseRemoved(*id),
            PatchServerResponse::AvailablePorts(ps) => ResponseView::AvailablePorts(ports_view(ps@)),
        }
    }
}

/// The kinds of fixture that can be patched, in table order.
pub open spec fn kinds_of(table: Seq<Profile>) -> Seq<(Seq<char>, DmxChannelCount)> {
    table.map_values(|p: Profile| (p.name@, p.channel_count))
}

/// Describe every kind of fixture that can be patched.
pub fn fixture_kinds() -> (r: Vec<FixtureKindDescription>)
    ensures
        kinds_view(r@) == kinds_of(profile_table()),
{
    let table = profiles();
    let mut r: Vec<FixtureKindDescription> = Vec::new();
    let mut k: usize = 0;
    while k < table.len()
        invariant
            k <= table@.len(),
            table@ == profile_table(),
            r@.len() == k,
            forall|i: int|
                0 <= i < k ==> (#[trigger] r@[i]).name@ == table@[i].name@ && r@[i].channel_count
                    == table@[i].channel_count,
        decreases table@.len() - k,
    {
        r.push(FixtureKindDescription::from_profile(&table[k]));
        k = k + 1;
    }
    assert forall|i: int| 0 <= i < r@.len() implies kinds_view(r@)[i] == kinds_of(profile_table())[i] by {
        assert(r@[i].name@ == table@[i].name@);
    }
    assert(kinds_view(r@) =~= kinds_of(profile_table()));
    r
}

/// What the outside world answered about DMX ports, for the requests that concern them.
pub enum PortOutcome {
    /// The port of each universe, for a listing of the patch's state.
    Universes(Vec<UnivWithPort>),
    /// The namespace and id of the port that a new universe starts out attached to.
    NewUniverse(String, String),
    /// Opening the port that a universe is to be attached to: done, or why it failed.
    Attached(Result<(), String>),
    /// The namespaces and ids of the ports that can be opened.
    Available(Vec<(String, String)>),
}

/// The port outcome that a request needs, given: the universes' ports for a state listing, the new
/// port for a new universe, the opening of the port to attach, and the ports available.  Other
/// requests need none.
pub open spec fn port_outcome_fits<S>(request: PatchServerRequest<S>, outcome: Option<PortOutcome>) -> bool {
    match request {
        PatchServerRequest::PatchState => outcome matches Some(PortOutcome::Universes(_)),
        PatchServerRequest::AddUniverse => outcome matches Some(PortOutcome::NewUniverse(_, _)),
        PatchServerRequest::AttachPort(_) => outcome matches Some(PortOutcome::Attached(_)),
        PatchServerRequest::AvailablePorts => outcome matches Some(PortOutcome::Available(_)),
        _ => true,
    }
}

/// Updates describing the fixtures of `items` that are patched in universe `u`, once unpatched,
/// in patch order.
pub open spec fn unpatch_updates(items: Seq<ItemView>, u: UniverseId) -> Seq<ResponseView>
    decreases items.len(),
{
    if items.len() == 0 {
        Seq::empty()
    } else {
        let rest = unpatch_updates(items.drop_last(), u);
        if in_universe(items.last(), u) {
            rest.push(ResponseView::Update(description_of(ItemView { address: None, ..items.last() })))
        } else {
            rest
        }
    }
}

/// The updates that removing universe `u` sends describe exactly the fixtures whose address the
/// removal changed, each as the removal leaves it: every update describes such a fixture, and
/// every such fixture is described by an update.
pub proof fn law_unpatch_updates_describe_changed_fixtures(items: Seq<ItemView>, u: UniverseId)
    ensures
        forall|k: int|
            0 <= k < unpatch_updates(items, u).len() ==> exists|j: int|
                0 <= j < items.len() && items[j].address != unpatched_from(items, u)[j].address
                    && #[trigger] unpatch_updates(items, u)[k] == ResponseView::Update(
                    description_of(unpatched_from(items, u)[j]),
                ),
        forall|j: int|
            0 <= j < items.len() && items[j].address != (#[trigger] unpatched_from(items, u)[j]).address
                ==> exists|k: int|
                0 <= k < unpatch_updates(items, u).len() && unpatch_updates(items, u)[k]
                    == ResponseView::Update(description_of(unpatched_from(items, u)[j])),
    decreases items.len(),
{
    if items.len() > 0 {
        let d = items.drop_last();
        let n = items.len() - 1;
        law_unpatch_updates_describe_changed_fixtures(d, u);
        let w = unpatched_from(items, u);
        let wd = unpatched_from(d, u);
        assert forall|j: int| 0 <= j < n implies #[trigger] wd[j] == w[j] && d[j] == items[j] by {}
        let ups = unpatch_updates(items, u);
        let rest = unpatch_updates(d, u);
        assert forall|k: int| 0 <= k < ups.len() implies exists|j: int|
            0 <= j < items.len() && items[j].address != w[j].address && #[trigger] ups[k]
                == ResponseView::Update(description_of(w[j])) by {
            if k < rest.len() {
                assert(ups[k] == rest[k]);
                let j = choose|j: int|
                    0 <= j < d.len() && d[j].address != wd[j].address && #[trigger] rest[k]
                        == ResponseView::Update(description_of(wd[j]));
                assert(wd[j] == w[j] && d[j] == items[j]);
            } else {
                assert(in_universe(items[n], u));
                assert(w[n] == ItemView { address: None, ..items[n] });
            }
        }
        assert forall|j: int|
            0 <= j < items.len() && items[j].address != (#[trigger] w[j]).address implies exists|k: int|
            0 <= k < ups.len() && ups[k] == ResponseView::Update(description_of(w[j])) by {
            if j < n {
                assert(wd[j] == w[j] && d[j] == items[j]);
                assert(d[j].address != wd[j].address);
                let k = choose|k: int|
                    0 <= k < rest.len() && rest[k] == ResponseView::Update(description_of(wd[j]));
                assert(ups[k] == rest[k]);
            } else {
                assert(in_universe(items[n], u));
                assert(ups[rest.len() as int] == ResponseView::Update(description_of(w[j])));
            }
        }
    }
}

/// The views of a collection of responses.
pub open spec fn responses_view(msgs: Seq<PatchServerResponse>) -> Seq<ResponseView> {
    msgs.map_values(|m: PatchServerResponse| m@)
}

/// One patch request applied to a patch: the patch it gives, or the error together with the
/// next fixture id at that point (a fixture that failed to patch still uses up its id).
pub open spec fn request_step(v: PatchView, req: PatchRequest) -> Result<
    PatchView,
    (RequestErrorView, FixtureId),
> {
    match profile_in(profile_table(), req.kind@) {
        None => Err((RequestErrorView::ProfileNotFound(req.kind@), v.next_id)),
        Some(p) => {
            let v1 = added(v, p, Some(req.name));
            match req.address {
                None => Ok(v1),
                Some((u, a)) => match repatch_result(v1, v.next_id, u, a) {
                    Ok(_) => Ok(with_address(v1, v.items.len() as int, u, a)),
                    Err(e) => Err((RequestErrorView::PatchError(e), v1.next_id)),
                },
            }
        },
    }
}

/// Patch requests applied in order, stopping at the first error.
pub open spec fn batch_result(v: PatchView, reqs: Seq<PatchRequest>) -> Result<
    PatchView,
    (RequestErrorView, FixtureId),
>
    decreases reqs.len(),
{
    if reqs.len() == 0 {
        Ok(v)
    } else {
        match batch_result(v, reqs.drop_last()) {
            Err(e) => Err(e),
            Ok(w) => request_step(w, reqs.last()),
        }
    }
}

/// Patch a batch of fixtures, each of the profile its request names, at the address it asks
/// for if any.  Either every request succeeds and the ids of the new fixtures are returned in
/// order, or the first error is returned and the patch is left as it was, but for the fixture
/// ids used up.
pub fn new_patches(patch: &mut Patch, reqs: Vec<PatchRequest>) -> (r: Result<
    Vec<FixtureId>,
    PatchRequestError,
>)
    requires
        old(patch).wf(),
        old(patch)@.next_id + reqs@.len() < u32::MAX,
    ensures
        final(patch).wf(),
        match batch_result(old(patch)@, reqs@) {
            Ok(w) => r matches Ok(ids) && final(patch)@ == w && ids@ == Seq::new(
                reqs@.len(),
                |k: int| (old(patch)@.next_id + k) as FixtureId,
            ) && w.items.len() == old(patch)@.items.len() + reqs@.len() && w.items.take(
                old(patch)@.items.len() as int,
            ) == old(patch)@.items,
            Err((e, next)) => r matches Err(x) && x@ == e && final(patch)@ == (PatchView {
                next_id: next,
                ..old(patch)@
            }),
        },
{
    let ghost old_view = patch@;
    let ghost n0 = old_view.items.len();
    let mut added_ids: Vec<FixtureId> = Vec::new();
    let mut error: Option<PatchRequestError> = None;
    let mut k: usize = 0;
    assert(reqs@.take(reqs@.len() as int) =~= reqs@);
    assert(reqs@.take(0) =~= Seq::<PatchRequest>::empty());
    assert(patch@.items.take(n0 as int) =~= old_view.items);
    while k < reqs.len()
        invariant_except_break
            error is None,
            batch_result(old_view, reqs@.take(k as int)) == Ok::<
                PatchView,
                (RequestErrorView, FixtureId),
            >(patch@),
        invariant
            k <= reqs@.len(),
            patch.wf(),
            patch_wf(old_view),
            old_view.next_id + reqs@.len() < u32::MAX,
            reqs@.take(reqs@.len() as int) == reqs@,
            patch@.universes == old_view.universes,
            patch@.next_id == old_view.next_id + k || error is Some,
            added_ids@ == Seq::new(k as nat, |j: int| (old_view.next_id + j) as FixtureId),
            patch@.items.len() == n0 + k,
            patch@.items.take(n0 as int) == old_view.items,
            forall|j: int| 0 <= j < k ==> #[trigger] patch@.items[n0 + j].id == old_view.next_id + j,
        ensures
            error matches Some(e) ==> batch_result(old_view, reqs@) matches Err((ev, next)) && e@ == ev
                && next == patch@.next_id,
            error is None ==> k == reqs@.len() && batch_result(old_view, reqs@) == Ok::<
                PatchView,
                (RequestErrorView, FixtureId),
            >(patch@),
        decreases reqs@.len() - k,
    {
        let ghost before = patch@;
        let ghost take_next = reqs@.take(k + 1);
        assert(take_next.drop_last() =~= reqs@.take(k as int));
        assert(take_next.last() == reqs@[k as int]);
        match profile_named(reqs[k].kind.as_str()) {
            None => {
                error = Some(PatchRequestError::ProfileNotFound(reqs[k].kind.clone()));
                proof {
                    lemma_batch_stops(old_view, reqs@, k as int + 1);
                }
                break;
            },
            Some(profile) => {
                proof {
                    lemma_profile_in_table(profile_table(), reqs@[k as int].kind@);
                    assert(profile.channel_count <= 3);
                }
                let name = reqs[k].name.clone();
                match reqs[k].address {
                    Some((u, a)) => {
                        match patch.add_at_address(&profile, Some(name), u, a) {
                            Ok(id) => {
                                added_ids.push(id);
                                proof {
                                    assert(patch@.items =~= before.items.push(patch@.items.last()));
                                    assert(patch@.items.take(n0 as int) =~= before.items.take(n0 as int));
                                    assert(added_ids@ =~= Seq::new(
                                        (k + 1) as nat,
                                        |j: int| (old_view.next_id + j) as FixtureId,
                                    ));
                                    assert forall|j: int| 0 <= j < k + 1 implies #[trigger] patch@.items[n0 + j].id
                                        == old_view.next_id + j by {
                                        if j < k {
                                            assert(patch@.items[n0 + j] == before.items[n0 + j]);
                                        }
                                    }
                                }
                            },
                            Err(e) => {
                                error = Some(PatchRequestError::PatchError(e));
                                proof {
                                    lemma_batch_stops(old_view, reqs@, k as int + 1);
                                }
                                break;
                            },
                        }
                    },
                    None => {
                        let id = patch.add(&profile, Some(name));
                        added_ids.push(id);
                        proof {
                            assert(patch@.items =~= before.items.push(patch@.items.last()));
                            assert(patch@.items.take(n0 as int) =~= before.items.take(n0 as int));
                            assert(added_ids@ =~= Seq::new(
                                (k + 1) as nat,
                                |j: int| (old_view.next_id + j) as FixtureId,
                            ));
                            assert forall|j: int| 0 <= j < k + 1 implies #[trigger] patch@.items[n0 + j].id
                                == old_view.next_id + j by {
                                if j < k {
                                    assert(patch@.items[n0 + j] == before.items[n0 + j]);
                                }
                            }
                        }
                    },
                }
            },
        }
        k = k + 1;
    }
    if error.is_none() {
        assert(reqs@.take(k as int) =~= reqs@);
        return Ok(added_ids);
    }
    // Undo the requests that succeeded, the latest first.
    let ghost failed_next = patch@.next_id;
    let mut j: usize = added_ids.len();
    while j > 0
        invariant
            j <= added_ids@.len(),
            added_ids@.len() == k,
            added_ids@ == Seq::new(k as nat, |i: int| (old_view.next_id + i) as FixtureId),
            patch.wf(),
            patch@.universes == old_view.universes,
            patch@.next_id == failed_next,
            patch@.items.len() == n0 + j,
            patch@.items.take(n0 as int) == old_view.items,
            forall|i: int| 0 <= i < j ==> #[trigger] patch@.items[n0 + i].id == old_view.next_id + i,
            forall|i: int| 0 <= i < n0 ==> #[trigger] old_view.items[i].id < old_view.next_id,
        decreases j,
    {
        j = j - 1;
        let ghost before = patch@;
        let id = added_ids[j];
        proof {
            let last = n0 + j;
            assert(before.items[last].id == id);
            assert forall|i: int| 0 <= i < last implies #[trigger] before.items[i].id != id by {
                if i < n0 {
                    assert(before.items.take(n0 as int)[i] == before.items[i]);
                }
            }
            assert(is_first_with_id(before.items, id, last));
            lemma_first_unique(before.items, id, last);
        }
        let removed = patch.remove(id);
        proof {
            let last = n0 + j;
            let i = choose|i: int|
                is_first_with_id(before.items, id, i) && removed->0@ == before.items[i] && patch@ == (
                PatchView { items: before.items.update(i, before.items.last()).drop_last(), ..before });
            lemma_first_unique(before.items, id, i);
            assert(patch@.items =~= before.items.drop_last());
            assert(patch@.items.take(n0 as int) =~= before.items.take(n0 as int));
        }
    }
    assert(patch@.items =~= patch@.items.take(n0 as int));
    Err(error.unwrap())
}

/// A profile found in a table is one of its entries.
pub proof fn lemma_profile_in_table(t: Seq<Profile>, kind: Seq<char>)
    ensures
        profile_in(t, kind) matches Some(p) ==> exists|i: int| 0 <= i < t.len() && t[i] == p,
    decreases t.len(),
{
    if t.len() > 0 && t[0].name@ != kind {
        let rest = t.subrange(1, t.len() as int);
        lemma_profile_in_table(rest, kind);
        if profile_in(t, kind) is Some {
            let i = choose|i: int| 0 <= i < rest.len() && rest[i] == profile_in(rest, kind)->0;
            assert(t[i + 1] == rest[i]);
        }
    } else if t.len() > 0 {
        assert(t[0] == t[0]);
    }
}

/// Once a batch fails, adding requests to it does not change its result.
pub proof fn lemma_batch_stops(v: PatchView, reqs: Seq<PatchRequest>, k: int)
    requires
        0 <= k <= reqs.len(),
        batch_result(v, reqs.take(k)) is Err,
    ensures
        batch_result(v, reqs) == batch_result(v, reqs.take(k)),
    decreases reqs.len() - k,
{
    if k < reqs.len() {
        assert(reqs.take(k + 1).drop_last() =~= reqs.take(k));
        lemma_batch_stops(v, reqs, k + 1);
    } else {
        assert(reqs.take(k) =~= reqs);
    }
}

/// A new universe, as the patch server adds it: unnamed, with every channel at zero.
pub open spec fn blank_universe() -> UniverseView {
    UniverseView { name: Seq::empty(), buffer: Seq::new(512, |c: int| 0u8) }
}

/// The universes with a new one added at the first free id.
pub open spec fn with_universe(us: Seq<Option<UniverseView>>, u: UniverseView) -> Seq<Option<UniverseView>> {
    if first_free(us) < us.len() {
        us.update(first_free(us), Some(u))
    } else {
        us.push(Some(u))
    }
}

/// The request was answered with these responses and this filter.
pub open spec fn answered(
    r: Result<(Messages<PatchServerResponse>, Option<ResponseFilter>), PatchRequestError>,
    msgs: Seq<ResponseView>,
    filter: Option<ResponseFilter>,
) -> bool {
    r matches Ok((m, f)) && responses_view(m@) == msgs && f == filter
}

/// The request was refused with this error.
pub open spec fn refused(
    r: Result<(Messages<PatchServerResponse>, Option<ResponseFilter>), PatchRequestError>,
    e: RequestErrorView,
) -> bool {
    r matches Err(x) && x@ == e
}

/// What handling a request does: the patch `w` it leaves in place of `v`, and its answer `r`.
pub open spec fn request_handled<S>(
    v: PatchView,
    w: PatchView,
    request: PatchServerRequest<S>,
    port_outcome: Option<PortOutcome>,
    r: Result<(Messages<PatchServerResponse>, Option<ResponseFilter>), PatchRequestError>,
) -> bool {
    let all = Some(ResponseFilter::All);
    match request {
        PatchServerRequest::PatchState => port_outcome matches Some(PortOutcome::Universes(us)) && w
            == v && answered(
            r,
            seq![ResponseView::PatchState(descriptions_of(v.items), us@.map_values(|u: UnivWithPort| port_view(u)))],
            None,
        ),
        PatchServerRequest::NewPatches(reqs) => match batch_result(v, reqs@) {
            Ok(nv) => w == nv && answered(
                r,
                seq![ResponseView::NewPatches(descriptions_of(nv.items.skip(v.items.len() as int)))],
                all,
            ),
            Err((e, next)) => w == (PatchView { next_id: next, ..v }) && refused(r, e),
        },
        PatchServerRequest::Rename(id, name) => if has_id(v.items, id) {
            let i = first_with_id(v.items, id);
            let renamed = ItemView { name: name@, ..v.items[i] };
            w == (PatchView { items: v.items.update(i, renamed), ..v }) && answered(
                r,
                seq![ResponseView::Update(description_of(renamed))],
                all,
            )
        } else {
            w == v && refused(r, RequestErrorView::PatchError(PatchErrorView::InvalidFixtureId(id)))
        },
        PatchServerRequest::Repatch(id, Some((u, a))) => match repatch_result(v, id, u, a) {
            Ok(_) => {
                let i = first_with_id(v.items, id);
                w == with_address(v, i, u, a) && answered(
                    r,
                    seq![ResponseView::Update(description_of(ItemView { address: Some((u, a)), ..v.items[i] }))],
                    all,
                )
            },
            Err(e) => w == v && refused(r, RequestErrorView::PatchError(e)),
        },
        PatchServerRequest::Repatch(id, None) => if has_id(v.items, id) {
            let i = first_with_id(v.items, id);
            let unpatched = ItemView { address: None, ..v.items[i] };
            w == (PatchView { items: v.items.update(i, unpatched), ..v }) && answered(
                r,
                seq![ResponseView::Update(description_of(unpatched))],
                all,
            )
        } else {
            w == v && refused(r, RequestErrorView::PatchError(PatchErrorView::InvalidFixtureId(id)))
        },
        PatchServerRequest::Remove(id) => if has_id(v.items, id) {
            let i = first_with_id(v.items, id);
            w == (PatchView { items: v.items.update(i, v.items.last()).drop_last(), ..v }) && answered(
                r,
                seq![ResponseView::Remove(id)],
                all,
            )
        } else {
            w == v && refused(r, RequestErrorView::PatchError(PatchErrorView::InvalidFixtureId(id)))
        },
        PatchServerRequest::GetKinds => w == v && answered(
            r,
            seq![ResponseView::Kinds(kinds_of(profile_table()))],
            None,
        ),
        PatchServerRequest::AddUniverse => port_outcome matches Some(PortOutcome::NewUniverse(ns, port_id))
            && w == (PatchView { universes: with_universe(v.universes, blank_universe()), ..v })
            && answered(
            r,
            seq![ResponseView::UpdateUniverse((first_free(v.universes) as UniverseId, ns@, port_id@))],
            all,
        ),
        PatchServerRequest::RemoveUniverse(u, force) => if !force && universe_in_use(v.items, u) {
            w == v && refused(r, RequestErrorView::PatchError(PatchErrorView::NonEmptyUniverse(u)))
        } else if u >= v.universes.len() {
            w == (PatchView { items: unpatched_from(v.items, u), ..v }) && refused(
                r,
                RequestErrorView::PatchError(PatchErrorView::InvalidUniverseId(u)),
            )
        } else {
            w == (PatchView {
                universes: v.universes.update(u as int, None),
                items: unpatched_from(v.items, u),
                ..v
            }) && answered(
                r,
                seq![ResponseView::UniverseRemoved(u)] + unpatch_updates(v.items, u),
                all,
            )
        },
        PatchServerRequest::AttachPort(pa) => port_outcome matches Some(PortOutcome::Attached(opened))
            && w == v && match opened {
            Err(e) => refused(r, RequestErrorView::PortError(e@)),
            Ok(_) => if universe_exists(v, pa.universe) {
                answered(r, seq![ResponseView::UpdateUniverse(port_view(pa))], all)
            } else {
                refused(r, RequestErrorView::PatchError(PatchErrorView::InvalidUniverseId(pa.universe)))
            },
        },
        PatchServerRequest::AvailablePorts => port_outcome matches Some(PortOutcome::Available(ps)) && w
            == v && answered(r, seq![ResponseView::AvailablePorts(ports_view(ps@))], None),
        PatchServerRequest::SetControlSource(id, _, _) => w == v && if has_id(v.items, id) {
            answered(
                r,
                seq![ResponseView::Update(description_of(v.items[first_with_id(v.items, id)]))],
                all,
            )
        } else {
            refused(r, RequestErrorView::PatchError(PatchErrorView::InvalidFixtureId(id)))
        },
    }
}

/// The updates that removing universe `u` sends out: one for each fixture patched there, in
/// patch order, describing it unpatched.
fn unpatch_update_messages(items: &Vec<PatchItem>, u: UniverseId) -> (r: Vec<PatchServerResponse>)
    ensures
        responses_view(r@) == unpatch_updates(items_view(items@), u),
{
    let mut r: Vec<PatchServerResponse> = Vec::new();
    let mut k: usize = 0;
    while k < items.len()
        invariant
            k <= items@.len(),
            responses_view(r@) == unpatch_updates(items_view(items@).take(k as int), u),
        decreases items@.len() - k,
    {
        let ghost all = items_view(items@);
        let ghost prev = r@;
        assert(all.take(k + 1).drop_last() =~= all.take(k as int));
        assert(all.take(k + 1).last() == items@[k as int]@);
        if items[k].universe() == Some(u) {
            let mut d = PatchItemDescription::from_item(&items[k]);
            d.address = None;
            r.push(PatchServerResponse::Update(d));
            proof {
                let want = unpatch_updates(all.take(k + 1), u);
                assert(want == unpatch_updates(all.take(k as int), u).push(ResponseView::Update(
                    description_of(ItemView { address: None, ..items@[k as int]@ }),
                )));
                assert forall|i: int| 0 <= i < r@.len() implies responses_view(r@)[i] == want[i] by {
                    if i < prev.len() {
                        assert(r@[i] == prev[i]);
                    }
                }
                assert(responses_view(r@) =~= want);
            }
        }
        k = k + 1;
    }
    assert(items_view(items@).take(k as int) =~= items_view(items@));
    r
}

/// An id that occurs has a first place.
proof fn lemma_has_first(items: Seq<ItemView>, id: FixtureId)
    requires
        has_id(items, id),
    ensures
        is_first_with_id(items, id, first_with_id(items, id)),
    decreases items.len(),
{
    let k = choose|k: int| 0 <= k < items.len() && #[trigger] items[k].id == id;
    if has_id(items.drop_last(), id) {
        lemma_has_first(items.drop_last(), id);
        let i = first_with_id(items.drop_last(), id);
        assert forall|j: int| 0 <= j < i implies #[trigger] items[j].id != id by {
            assert(items[j] == items.drop_last()[j]);
        }
        assert(is_first_with_id(items, id, i));
        lemma_first_unique(items, id, i);
    } else {
        let i = items.len() - 1;
        assert forall|j: int| 0 <= j < i implies #[trigger] items[j].id != id by {
            assert(items[j] == items.drop_last()[j]);
        }
        assert(k == i) by {
            if k < i {
                assert(items.drop_last()[k].id == id);
            }
        }
        assert(is_first_with_id(items, id, i));
        lemma_first_unique(items, id, i);
    }
}

/// Two item lists with the same ids at the same places find an id at the same first place.
proof fn lemma_first_same_ids(v: Seq<ItemView>, w: Seq<ItemView>, id: FixtureId, j: int)
    requires
        v.len() == w.len(),
        forall|k: int| 0 <= k < v.len() ==> #[trigger] v[k].id == w[k].id,
        is_first_with_id(w, id, j),
    ensures
        first_with_id(v, id) == j,
        has_id(v, id),
{
    assert(v[j].id == w[j].id);
    assert forall|k: int| 0 <= k < j implies #[trigger] v[k].id != id by {
        assert(v[k].id == w[k].id);
    }
    lemma_first_unique(v, id, j);
}

/// A single response.
fn one_response(resp: PatchServerResponse) -> (m: Messages<PatchServerResponse>)
    ensures
        responses_view(m@) == seq![resp@],
{
    let m = Messages::one(resp);
    assert(responses_view(m@) =~= seq![resp@]);
    m
}

/// Handle a request to the fixture patch: change the patch as the request asks, and answer with
/// the responses to send out, together with the filter `All` where every client should see them.
/// The work on DMX ports is the caller's, who hands in what came of it; so is keeping the source
/// chosen for a fixture's control, which is answered with the fixture's description.
pub fn handle_patch_request<S>(
    patch: &mut Patch,
    request: PatchServerRequest<S>,
    port_outcome: Option<PortOutcome>,
) -> (r: Result<(Messages<PatchServerResponse>, Option<ResponseFilter>), PatchRequestError>)
    requires
        old(patch).wf(),
        port_outcome_fits(request, port_outcome),
        request matches PatchServerRequest::NewPatches(reqs) ==> old(patch)@.next_id + reqs@.len()
            < u32::MAX,
        request is AddUniverse ==> old(patch)@.universes.len() < u32::MAX,
        request matches PatchServerRequest::Repatch(id, Some((_, a))) ==> (address_in_range(a)
            ==> forall|i: int|
            0 <= i < old(patch)@.items.len() && #[trigger] old(patch)@.items[i].id == id ==> a - 1
                + old(patch)@.items[i].fixture.channel_count <= u16::MAX),
    ensures
        final(patch).wf(),
        request_handled(old(patch)@, final(patch)@, request, port_outcome, r),
{
    let ghost v = patch@;
    let all = Some(ResponseFilter::All);
    match request {
        PatchServerRequest::PatchState => {
            let us = match port_outcome {
                Some(PortOutcome::Universes(us)) => us,
                _ => unreached(),
            };
            let ds = describe_items(patch.items(), 0);
            assert(v.items.skip(0) =~= v.items);
            Ok((one_response(PatchServerResponse::PatchState(ds, us)), None))
        },
        PatchServerRequest::NewPatches(reqs) => {
            let n0 = patch.items().len();
            match new_patches(patch, reqs) {
                Ok(_) => {
                    let ds = describe_items(patch.items(), n0);
                    Ok((one_response(PatchServerResponse::NewPatches(ds)), all))
                },
                Err(e) => Err(e),
            }
        },
        PatchServerRequest::Rename(id, name) => {
            match patch.item_mut(id) {
                Ok(item) => {
                    item.set_name(name);
                    let d = PatchItemDescription::from_item(item);
                    proof {
                        let i = choose|i: int| is_first_with_id(v.items, id, i) && patch@.items =~= v.items.update(i, item@);
                        lemma_first_unique(v.items, id, i);
                        assert(patch_wf(patch@));
                    }
                    Ok((one_response(PatchServerResponse::Update(d)), all))
                },
                Err(e) => Err(PatchRequestError::PatchError(e)),
            }
        },
        PatchServerRequest::Repatch(id, Some((u, a))) => {
            match patch.repatch(id, u, a) {
                Ok(()) => {
                    proof {
                        assert(repatch_result(v, id, u, a) is Ok);
                        lemma_has_first(v.items, id);
                        let i0 = first_with_id(v.items, id);
                        assert(patch@ == with_address(v, i0, u, a));
                        assert(patch@.items.len() == v.items.len());
                        assert forall|k: int| 0 <= k < v.items.len() implies #[trigger] v.items[k].id
                            == patch@.items[k].id by {}
                        assert(patch@.items[i0].id == id);
                    }
                    match patch.item(id) {
                    Ok(item) => {
                        proof {
                            let j = choose|j: int| is_first_with_id(patch@.items, id, j) && item@ == patch@.items[j];
                            lemma_first_same_ids(v.items, patch@.items, id, j);
                        }
                        let d = PatchItemDescription::from_item(item);
                        Ok((one_response(PatchServerResponse::Update(d)), all))
                    },
                    Err(e) => Err(PatchRequestError::PatchError(e)),
                    }
                },
                Err(e) => Err(PatchRequestError::PatchError(e)),
            }
        },
        PatchServerRequest::Repatch(id, None) => {
            match patch.unpatch(id) {
                Ok(()) => {
                    proof {
                        assert(has_id(v.items, id));
                        lemma_has_first(v.items, id);
                        assert(patch@.items.len() == v.items.len());
                        assert forall|k: int| 0 <= k < v.items.len() implies #[trigger] v.items[k].id
                            == patch@.items[k].id by {}
                        assert(patch@.items[first_with_id(v.items, id)].id == id);
                    }
                    match patch.item(id) {
                    Ok(item) => {
                        proof {
                            let j = choose|j: int| is_first_with_id(patch@.items, id, j) && item@ == patch@.items[j];
                            lemma_first_same_ids(v.items, patch@.items, id, j);
                        }
                        let d = PatchItemDescription::from_item(item);
                        Ok((one_response(PatchServerResponse::Update(d)), all))
                    },
                    Err(e) => Err(PatchRequestError::PatchError(e)),
                    }
                },
                Err(e) => Err(PatchRequestError::PatchError(e)),
            }
        },
        PatchServerRequest::Remove(id) => {
            match patch.remove(id) {
                Some(item) => Ok((one_response(PatchServerResponse::Remove(item.id())), all)),
                None => Err(PatchRequestError::PatchError(PatchError::InvalidFixtureId(id))),
            }
        },
        PatchServerRequest::GetKinds => {
            Ok((one_response(PatchServerResponse::Kinds(fixture_kinds())), None))
        },
        PatchServerRequest::AddUniverse => {
            let (ns, port_id) = match port_outcome {
                Some(PortOutcome::NewUniverse(ns, port_id)) => (ns, port_id),
                _ => unreached(),
            };
            let universe = Universe::new(String::new());
            assert(universe@.name =~= blank_universe().name);
            assert(universe@.buffer =~= blank_universe().buffer);
            let uid = patch.add_universe(universe);
            Ok((one_response(PatchServerResponse::UpdateUniverse(UnivWithPort::new(uid, ns, port_id))), all))
        },
        PatchServerRequest::RemoveUniverse(u, force) => {
            let updates = unpatch_update_messages(patch.items(), u);
            match patch.remove_universe(u, force) {
                Ok(()) => {
                    let mut msgs: Vec<PatchServerResponse> = Vec::new();
                    msgs.push(PatchServerResponse::UniverseRemoved(u));
                    let ghost first = msgs@;
                    let mut updates = updates;
                    msgs.append(&mut updates);
                    proof {
                        assert(responses_view(first) =~= seq![ResponseView::UniverseRemoved(u)]);
                        assert(responses_view(msgs@) =~= responses_view(first) + unpatch_updates(v.items, u));
                    }
                    Ok((Messages(msgs), all))
                },
                Err(e) => Err(PatchRequestError::PatchError(e)),
            }
        },
        PatchServerRequest::AttachPort(pa) => {
            let opened = match port_outcome {
                Some(PortOutcome::Attached(opened)) => opened,
                _ => unreached(),
            };
            match opened {
                Err(e) => Err(PatchRequestError::PortError(e)),
                Ok(()) => match patch.universe(pa.universe) {
                    Ok(_) => Ok((one_response(PatchServerResponse::UpdateUniverse(pa)), all)),
                    Err(e) => Err(PatchRequestError::PatchError(e)),
                },
            }
        },
        PatchServerRequest::AvailablePorts => {
            let ps = match port_outcome {
                Some(PortOutcome::Available(ps)) => ps,
                _ => unreached(),
            };
            Ok((one_response(PatchServerResponse::AvailablePorts(ps)), None))
        },
        PatchServerRequest::SetControlSource(id, _, _) => {
            match patch.item(id) {
                Ok(item) => {
                    proof {
                        let j = choose|j: int| is_first_with_id(v.items, id, j) && item@ == v.items[j];
                        lemma_first_unique(v.items, id, j);
                    }
                    let d = PatchItemDescription::from_item(item);
                    Ok((one_response(PatchServerResponse::Update(d)), all))
                },
                Err(e) => Err(PatchRequestError::PatchError(e)),
            }
        },
    }
}

} // verus!

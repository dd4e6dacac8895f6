use wiggles::patch::{
    apollo_roto_q_profile, apollo_smart_move_profile, clay_paky_astroraggi_power_profile,
    clay_paky_atlas_profile, dimmer_profile, empty_buffer, profiles,
    valid_address, DmxAddress, FixtureError, FixtureId, Patch, PatchError, Universe, UniverseId,
    UNIVERSE_SIZE,
};

fn assert_fixture_patched_at(p: &Patch, id: FixtureId, address: Option<(UniverseId, DmxAddress)>) {
    assert_eq!(address, p.item(id).unwrap().address());
}

fn offline(name: &str) -> Universe {
    Universe::new(name.to_string())
}

#[test]
fn test_universe_create_and_delete() {
    let mut patch = Patch::new();
    assert!(patch.describe_universes().is_empty());

    let u = offline("test universe 0");
    let uid = patch.add_universe(u);
    assert_eq!(1, patch.describe_universes().len());
    assert!(patch.universe(uid).is_ok());
    assert_eq!(PatchError::InvalidUniverseId(uid + 1), patch.universe(uid + 1).unwrap_err());
    patch.remove_universe(uid, false).unwrap();
    assert_eq!(PatchError::InvalidUniverseId(uid), patch.universe(uid).unwrap_err());
}

#[test]
fn test_no_remove_universe_with_fixtures() {
    let mut patch = Patch::new();
    let uid = patch.add_universe(offline("test universe 0"));
    let fid = patch.add_at_address(&dimmer_profile(), None, uid, 1).unwrap();
    assert_eq!(PatchError::NonEmptyUniverse(uid), patch.remove_universe(uid, false).unwrap_err());
    assert_fixture_patched_at(&patch, fid, Some((uid, 1)));
    // Add another universe and a fixture in it, to ensure universe removal unpatching does affect
    // others.
    let uid_other = patch.add_universe(offline("test universe 1"));
    let fid_other = patch.add_at_address(&dimmer_profile(), None, uid_other, 1).unwrap();
    assert_fixture_patched_at(&patch, fid_other, Some((uid_other, 1)));
    // Force universe removal; it should unpatch the fixture in it.
    patch.remove_universe(uid, true).unwrap();
    assert_fixture_patched_at(&patch, fid, None);
    assert_fixture_patched_at(&patch, fid_other, Some((uid_other, 1)));
}

#[test]
fn test_no_out_of_range_address() {
    let mut patch = Patch::new();
    let uid = patch.add_universe(offline("test universe 0"));
    let bad_addr = 600;
    assert_eq!(
        PatchError::InvalidDmxAddress(bad_addr),
        patch.add_at_address(&dimmer_profile(), None, uid, bad_addr).unwrap_err()
    );
}

#[test]
fn patching_at_the_addresses_of_a_saved_show() {
    // The patch that a saved show holds: two universes, two fixture kinds, one unpatched fixture.
    let astro_profile = clay_paky_astroraggi_power_profile();
    let mut patch = Patch::new();
    let uid0 = patch.add_universe(offline("test universe 0"));
    let uid1 = patch.add_universe(offline("test universe 1"));
    let fid0 = patch.add_at_address(&dimmer_profile(), None, uid0, 124).unwrap();
    let fid1 = patch.add_at_address(&dimmer_profile(), None, uid0, 127).unwrap();
    let fid2 = patch.add_at_address(&dimmer_profile(), None, uid0, 511).unwrap();
    let fid3 = patch.add_at_address(&astro_profile, None, uid1, 127).unwrap();
    let fid4 = patch.add_at_address(&dimmer_profile(), None, uid1, 1).unwrap();
    let fid5 = patch.add(&astro_profile, None);
    assert_eq!(vec![fid0, fid1, fid2, fid3, fid4, fid5], vec![0, 1, 2, 3, 4, 5]);
    assert_fixture_patched_at(&patch, fid2, Some((uid0, 511)));
    assert_fixture_patched_at(&patch, fid5, None);
    assert_eq!(patch.items().len(), 6);
    assert_eq!(patch.item(fid3).unwrap().kind(), "clay paky:Astroraggi Power");
    assert_eq!(patch.item(fid3).unwrap().channel_count(), 2);
}

#[test]
fn clay_paky_fixtures_are_patched_on_request() {
    let mut patch = Patch::new();
    let uid = patch.add_universe(offline("u"));
    let ids = new_patches(
        &mut patch,
        vec![
            request("moon", "clay paky:Astroraggi Power", Some((uid, 1))),
            request("fan", "clay paky:Atlas", Some((uid, 3))),
        ],
    )
    .unwrap();
    assert_eq!(ids, vec![0, 1]);
    let summary = patch.universe_summary(uid).unwrap();
    assert_eq!(&summary[0..4], &[Some(0), Some(0), Some(1), None]);
    assert_eq!(patch.item(1).unwrap().fixture().levels(), &[0]);
}

#[test]
fn valid_addresses_are_the_channels_of_a_universe() {
    assert_eq!(valid_address(0), Err(PatchError::InvalidDmxAddress(0)));
    assert_eq!(valid_address(1), Ok(1));
    assert_eq!(valid_address(512), Ok(512));
    assert_eq!(valid_address(513), Err(PatchError::InvalidDmxAddress(513)));
}

#[test]
fn empty_buffer_is_all_zero() {
    let b = empty_buffer();
    assert_eq!(b.len(), UNIVERSE_SIZE);
    assert!(b.iter().all(|v| *v == 0));
}

#[test]
fn overlapping_patch_is_refused_with_deduplicated_conflicts() {
    let mut patch = Patch::new();
    let uid = patch.add_universe(offline("u"));
    let a = patch.add_at_address(&apollo_smart_move_profile(), None, uid, 10).unwrap();
    let b = patch.add_at_address(&dimmer_profile(), None, uid, 13).unwrap();
    // A smart move at address 11 would take addresses 11, 12, 13: owned by a, a, b.
    let c = patch.add(&apollo_smart_move_profile(), Some("mover".to_string()));
    assert_eq!(
        patch.repatch(c, uid, 11),
        Err(PatchError::AddressConflict(c, uid, 11, vec![a, b]))
    );
    assert_fixture_patched_at(&patch, c, None);
    // A fixture conflicts with itself where it is already patched.
    assert_eq!(patch.repatch(a, uid, 9), Err(PatchError::AddressConflict(a, uid, 9, vec![a])));
    // Too long for the end of the universe.
    assert_eq!(patch.repatch(c, uid, 511), Err(PatchError::FixtureTooLongForAddress(511, 3)));
    // Free channels.
    patch.repatch(c, uid, 20).unwrap();
    assert_fixture_patched_at(&patch, c, Some((uid, 20)));
    assert_eq!(patch.item(c).unwrap().name, "mover");
    assert_eq!(patch.repatch(99, uid, 1), Err(PatchError::InvalidFixtureId(99)));
    assert_eq!(patch.repatch(c, 7, 1), Err(PatchError::InvalidUniverseId(7)));
    assert_eq!(patch.repatch(c, uid, 0), Err(PatchError::InvalidDmxAddress(0)));
    // The last channels of a universe.
    patch.repatch(c, uid, 510).unwrap();
}

#[test]
fn failed_add_at_address_leaves_the_patch_but_uses_an_id() {
    let mut patch = Patch::new();
    let uid = patch.add_universe(offline("u"));
    patch.add_at_address(&dimmer_profile(), None, uid, 5).unwrap();
    assert_eq!(
        patch.add_at_address(&dimmer_profile(), None, uid, 5),
        Err(PatchError::AddressConflict(1, uid, 5, vec![0]))
    );
    assert_eq!(patch.items().len(), 1);
    assert_eq!(patch.add(&dimmer_profile(), None), 2);
}

#[test]
fn universe_summary_names_the_owner_of_each_channel() {
    let mut patch = Patch::new();
    let uid = patch.add_universe(offline("u"));
    let a = patch.add_at_address(&apollo_roto_q_profile(), None, uid, 3).unwrap();
    let summary = patch.universe_summary(uid).unwrap();
    assert_eq!(summary[1], None);
    assert_eq!(summary[2], Some(a));
    assert_eq!(summary[3], Some(a));
    assert_eq!(summary[4], None);
    assert_eq!(patch.universe_summary(uid + 1).unwrap_err(), PatchError::InvalidUniverseId(uid + 1));
}

#[test]
fn test_render() {
    let mut patch = Patch::new();
    let uid = patch.add_universe(offline("test universe 0"));
    let fid = patch.add_at_address(&dimmer_profile(), None, uid, 1).unwrap();
    fn assert_all_zeros(patch: &Patch, uid: UniverseId) {
        assert_eq!([0; 512][..], patch.universe(uid).unwrap().buffer()[..]);
    }
    assert_all_zeros(&patch, uid);
    patch.item_mut(fid).unwrap().set_control(0, vec![255]).unwrap();
    patch.render();
    {
        let univ = patch.universe(uid).unwrap();
        assert_eq!(255, univ.buffer()[0]);
        assert_eq!([0; 511][..], univ.buffer()[1..]);
    }
    // Make sure inactive fixtures don't render.
    patch.set_active(fid, false).unwrap();
    patch.render();
    assert_all_zeros(&patch, uid);
}

#[test]
fn fixture_controls_are_range_checked() {
    let mut patch = Patch::new();
    let fid = patch.add(&dimmer_profile(), None);
    assert_eq!(
        patch.item_mut(fid).unwrap().set_control(1, vec![9]),
        Err(FixtureError::ControlOutOfRange(1))
    );
    assert_eq!(patch.item(fid).unwrap().fixture().levels(), &[0]);
}

#[test]
fn remove_and_unpatch() {
    let mut patch = Patch::new();
    let uid = patch.add_universe(offline("u"));
    let a = patch.add_at_address(&dimmer_profile(), None, uid, 1).unwrap();
    let b = patch.add(&dimmer_profile(), Some("b".to_string()));
    patch.unpatch(a).unwrap();
    assert_fixture_patched_at(&patch, a, None);
    assert_eq!(patch.unpatch(42), Err(PatchError::InvalidFixtureId(42)));
    let removed = patch.remove(a).unwrap();
    assert_eq!(removed.id(), a);
    assert!(patch.remove(a).is_none());
    assert_eq!(patch.items()[0].id(), b);
    assert_eq!(patch.item(a).map(|i| i.id()), Err(PatchError::InvalidFixtureId(a)));
}

#[test]
fn universes_are_described_and_slots_reused() {
    let mut patch = Patch::new();
    let u0 = patch.add_universe(offline("zero"));
    let u1 = patch.add_universe(offline("one"));
    patch.remove_universe(u0, false).unwrap();
    assert_eq!(patch.describe_universes(), vec![(u1, "one")]);
    let u2 = patch.add_universe(offline("two"));
    assert_eq!(u2, u0);
    assert_eq!(patch.describe_universes(), vec![(0, "two"), (1, "one")]);
    assert_eq!(patch.remove_universe(9, true), Err(PatchError::InvalidUniverseId(9)));
}

#[test]
fn profiles_are_listed() {
    let p = profiles();
    assert_eq!(p.len(), 5);
    assert_eq!(p[0].name(), "dimmer");
    assert_eq!(p[0].channel_count(), 1);
    let f = p[1].create_fixture();
    assert_eq!(f.kind(), "apollo:Smart Move DMX");
    assert_eq!(f.levels(), &[0, 0, 0]);
}

use wiggles::patch::profile_named;
use wiggles::patch_message::{new_patches, FixtureKindDescription, PatchRequest, PatchRequestError, UnivWithPort};

fn request(name: &str, kind: &str, address: Option<(u32, u16)>) -> PatchRequest {
    PatchRequest { name: name.to_string(), kind: kind.to_string(), address }
}

#[test]
fn profiles_are_found_by_name() {
    assert_eq!(profile_named("dimmer").map(|p| p.channel_count), Some(1));
    assert_eq!(profile_named("apollo:Roto-Q DMX").map(|p| p.channel_count), Some(2));
    assert!(profile_named("fog machine").is_none());
    let astro = profile_named("clay paky:Astroraggi Power").unwrap();
    assert_eq!((astro.channel_count, astro.control_count), (2, 3));
    let atlas = profile_named("clay paky:Atlas").unwrap();
    assert_eq!((atlas.channel_count, atlas.control_count), (1, 2));
    assert_eq!(atlas.description(), clay_paky_atlas_profile().description());
}

#[test]
fn a_batch_of_patches_applies_entirely() {
    let mut patch = Patch::new();
    let uid = patch.add_universe(offline("u"));
    let ids = new_patches(
        &mut patch,
        vec![request("a", "dimmer", Some((uid, 1))), request("b", "apollo:Roto-Q DMX", None)],
    )
    .unwrap();
    assert_eq!(ids, vec![0, 1]);
    assert_fixture_patched_at(&patch, 0, Some((uid, 1)));
    assert_fixture_patched_at(&patch, 1, None);
    assert_eq!(patch.item(1).unwrap().name, "b");
}

#[test]
fn a_failing_batch_of_patches_applies_not_at_all() {
    let mut patch = Patch::new();
    let uid = patch.add_universe(offline("u"));
    let kept = patch.add_at_address(&dimmer_profile(), None, uid, 3).unwrap();
    // The second request conflicts with the fixture already at 3.
    let r = new_patches(
        &mut patch,
        vec![request("a", "dimmer", Some((uid, 1))), request("b", "dimmer", Some((uid, 3))), request("c", "dimmer", None)],
    );
    assert_eq!(r, Err(PatchRequestError::PatchError(PatchError::AddressConflict(2, uid, 3, vec![kept]))));
    assert_eq!(patch.items().len(), 1);
    assert_eq!(patch.items()[0].id(), kept);
    // An unknown kind.
    let r = new_patches(&mut patch, vec![request("a", "dimmer", None), request("z", "laser", None)]);
    assert_eq!(r, Err(PatchRequestError::ProfileNotFound("laser".to_string())));
    assert_eq!(patch.items().len(), 1);
    assert_eq!(patch.next_fixture_id(), 4);
}

#[test]
fn message_types_are_built() {
    let d = FixtureKindDescription::from_profile(&dimmer_profile());
    assert_eq!((d.name.as_str(), d.channel_count), ("dimmer", 1));
    let u = UnivWithPort::new(2, "offline".to_string(), "none".to_string());
    assert_eq!(u.universe, 2);
    assert_eq!(u.port_namespace, "offline");
}

use wiggles::clients::ResponseFilter;
use wiggles::patch_message::{handle_patch_request, PatchItemDescription, PatchServerRequest, PatchServerResponse, PortOutcome};

fn handle(
    patch: &mut Patch,
    request: PatchServerRequest<u32>,
    ports: Option<PortOutcome>,
) -> Result<(Vec<PatchServerResponse>, Option<ResponseFilter>), PatchRequestError> {
    handle_patch_request(patch, request, ports).map(|(m, f)| (m.0, f))
}

fn dimmer_description(id: FixtureId, name: &str, address: Option<(UniverseId, DmxAddress)>) -> PatchItemDescription {
    PatchItemDescription { id, name: name.to_string(), kind: "dimmer".to_string(), address, channel_count: 1 }
}

#[test]
fn patch_server_adds_and_removes_universes() {
    let mut patch = Patch::new();
    let r = handle(&mut patch, PatchServerRequest::AddUniverse, Some(PortOutcome::NewUniverse("offline".to_string(), "none".to_string())));
    assert_eq!(
        r,
        Ok((vec![PatchServerResponse::UpdateUniverse(UnivWithPort::new(0, "offline".to_string(), "none".to_string()))], Some(ResponseFilter::All)))
    );
    let a = patch.add_at_address(&dimmer_profile(), Some("a".to_string()), 0, 1).unwrap();
    let _b = patch.add(&dimmer_profile(), Some("b".to_string()));
    assert_eq!(
        handle(&mut patch, PatchServerRequest::RemoveUniverse(0, false), None),
        Err(PatchRequestError::PatchError(PatchError::NonEmptyUniverse(0)))
    );
    assert_eq!(
        handle(&mut patch, PatchServerRequest::RemoveUniverse(0, true), None),
        Ok((
            vec![PatchServerResponse::UniverseRemoved(0), PatchServerResponse::Update(dimmer_description(a, "a", None))],
            Some(ResponseFilter::All)
        ))
    );
    assert_eq!(
        handle(&mut patch, PatchServerRequest::RemoveUniverse(3, true), None),
        Err(PatchRequestError::PatchError(PatchError::InvalidUniverseId(3)))
    );
}

#[test]
fn patch_server_patches_renames_and_removes_fixtures() {
    let mut patch = Patch::new();
    let uid = patch.add_universe(offline("u"));
    let r = handle(&mut patch, PatchServerRequest::NewPatches(vec![request("a", "dimmer", Some((uid, 4)))]), None);
    assert_eq!(r, Ok((vec![PatchServerResponse::NewPatches(vec![dimmer_description(0, "a", Some((uid, 4)))])], Some(ResponseFilter::All))));
    assert_eq!(
        handle(&mut patch, PatchServerRequest::Rename(0, "front".to_string()), None),
        Ok((vec![PatchServerResponse::Update(dimmer_description(0, "front", Some((uid, 4))))], Some(ResponseFilter::All)))
    );
    assert_eq!(
        handle(&mut patch, PatchServerRequest::Repatch(0, Some((uid, 9))), None),
        Ok((vec![PatchServerResponse::Update(dimmer_description(0, "front", Some((uid, 9))))], Some(ResponseFilter::All)))
    );
    assert_eq!(
        handle(&mut patch, PatchServerRequest::Repatch(0, Some((uid, 0))), None),
        Err(PatchRequestError::PatchError(PatchError::InvalidDmxAddress(0)))
    );
    assert_eq!(
        handle(&mut patch, PatchServerRequest::Repatch(0, None), None),
        Ok((vec![PatchServerResponse::Update(dimmer_description(0, "front", None))], Some(ResponseFilter::All)))
    );
    assert_eq!(
        handle(&mut patch, PatchServerRequest::SetControlSource(0, 0, Some(7)), None),
        Ok((vec![PatchServerResponse::Update(dimmer_description(0, "front", None))], Some(ResponseFilter::All)))
    );
    assert_eq!(
        handle(&mut patch, PatchServerRequest::PatchState, Some(PortOutcome::Universes(vec![]))),
        Ok((vec![PatchServerResponse::PatchState(vec![dimmer_description(0, "front", None)], vec![])], None))
    );
    assert_eq!(handle(&mut patch, PatchServerRequest::Remove(0), None), Ok((vec![PatchServerResponse::Remove(0)], Some(ResponseFilter::All))));
    assert_eq!(
        handle(&mut patch, PatchServerRequest::Remove(0), None),
        Err(PatchRequestError::PatchError(PatchError::InvalidFixtureId(0)))
    );
    assert_eq!(
        handle(&mut patch, PatchServerRequest::Rename(0, "x".to_string()), None),
        Err(PatchRequestError::PatchError(PatchError::InvalidFixtureId(0)))
    );
}

#[test]
fn patch_server_lists_kinds_and_ports() {
    let mut patch = Patch::new();
    let r = handle(&mut patch, PatchServerRequest::GetKinds, None).unwrap();
    match &r.0[0] {
        PatchServerResponse::Kinds(ks) => {
            assert_eq!(ks.len(), 5);
            assert_eq!(ks[4], FixtureKindDescription::from_profile(&clay_paky_atlas_profile()));
            assert_eq!(ks[0], FixtureKindDescription::from_profile(&dimmer_profile()));
        }
        other => panic!("unexpected response {:?}", other),
    }
    assert_eq!(r.1, None);
    let ports = vec![("offline".to_string(), "none".to_string())];
    assert_eq!(
        handle(&mut patch, PatchServerRequest::AvailablePorts, Some(PortOutcome::Available(ports.clone()))),
        Ok((vec![PatchServerResponse::AvailablePorts(ports)], None))
    );
    let pa = UnivWithPort::new(0, "enttec".to_string(), "usb0".to_string());
    assert_eq!(
        handle(&mut patch, PatchServerRequest::AttachPort(pa.clone()), Some(PortOutcome::Attached(Err("no such port".to_string())))),
        Err(PatchRequestError::PortError("no such port".to_string()))
    );
    assert_eq!(
        handle(&mut patch, PatchServerRequest::AttachPort(pa.clone()), Some(PortOutcome::Attached(Ok(())))),
        Err(PatchRequestError::PatchError(PatchError::InvalidUniverseId(0)))
    );
    patch.add_universe(offline("u"));
    assert_eq!(
        handle(&mut patch, PatchServerRequest::AttachPort(pa.clone()), Some(PortOutcome::Attached(Ok(())))),
        Ok((vec![PatchServerResponse::UpdateUniverse(pa)], Some(ResponseFilter::All)))
    );
}
